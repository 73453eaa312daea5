//! The line of network figures that the player can have on screen.

use crate::netplay::Netplay;
use crate::text::{decimal, push_decimal, push_signed, signed_decimal};
use vstd::prelude::*;
use vstd::string::*;

verus! {

/// Nanoseconds between two samples of the throughput.
pub const SAMPLE_NANOS: u128 = 1_000_000_000;

/// The bytes that have passed since the last sample.
#[derive(Clone, Copy, Debug, PartialEq, Eq, Structural)]
pub struct Throughput {
    pub up: u64,
    pub down: u64,
}

/// By how much a counter has grown; a counter that has run past its end counts as not grown.
pub open spec fn growth(now: u64, last: u64) -> u64 {
    if now >= last {
        (now - last) as u64
    } else {
        0
    }
}

/// The growth from one sample to the next and from there to a third is the growth from the first
/// to the third, as long as the counter does not run past its end.
pub proof fn law_samples_add_up(first: u64, second: u64, third: u64)
    requires
        first <= second <= third,
    ensures
        growth(second, first) + growth(third, second) == growth(third, first),
{
}

/// Samples the throughput once a second; `None` between samples, so that it can be asked for in
/// every frame. `elapsed_nanos` is the time since the last sample, `sent` and `recv` are the
/// counters of the session's channel.
pub fn overlay_stats<I, C>(
    netplay: &mut Netplay<I, C>,
    elapsed_nanos: u128,
    sent: u64,
    recv: u64,
) -> (sample: Option<Throughput>)
    ensures
        elapsed_nanos < SAMPLE_NANOS ==> sample is None && *final(netplay) == *old(netplay),
        elapsed_nanos >= SAMPLE_NANOS ==> {
            &&& sample == Some(
                Throughput {
                    up: growth(sent, old(netplay).last_bytes_sent),
                    down: growth(recv, old(netplay).last_bytes_recv),
                },
            )
            &&& sent >= old(netplay).last_bytes_sent ==> sample->0.up == sent - old(
                netplay,
            ).last_bytes_sent
            &&& sent < old(netplay).last_bytes_sent ==> sample->0.up == 0
            &&& recv >= old(netplay).last_bytes_recv ==> sample->0.down == recv - old(
                netplay,
            ).last_bytes_recv
            &&& recv < old(netplay).last_bytes_recv ==> sample->0.down == 0
            &&& *final(netplay) == (Netplay {
                last_bytes_sent: sent,
                last_bytes_recv: recv,
                ..*old(netplay)
            })
        },
{
    if elapsed_nanos < SAMPLE_NANOS {
        return None;
    }
    let up = sent.saturating_sub(netplay.last_bytes_sent);
    let down = recv.saturating_sub(netplay.last_bytes_recv);
    netplay.last_bytes_sent = sent;
    netplay.last_bytes_recv = recv;
    Some(Throughput { up, down })
}

/// What the session reports of the connection to one remote player.
#[derive(Clone, Copy, Debug, PartialEq, Eq, Structural)]
pub struct NetworkStats {
    /// The round trip time in milliseconds.
    pub ping: u128,
    /// How many frames this machine runs behind the remote one.
    pub local_frames_behind: i32,
}

/// The worst figures over all remote players.
#[derive(Clone, Copy, Debug, PartialEq, Eq, Structural)]
pub struct WorstStats {
    pub ping: u128,
    pub behind: i32,
}

/// The worst figures over all remote players, and no better than zero.
pub open spec fn worst(stats: Seq<Option<NetworkStats>>) -> WorstStats
    decreases stats.len(),
{
    if stats.len() == 0 {
        WorstStats { ping: 0, behind: 0 }
    } else {
        let before = worst(stats.drop_last());
        match stats.last() {
            Some(s) => WorstStats {
                ping: if s.ping > before.ping {
                    s.ping
                } else {
                    before.ping
                },
                behind: if s.local_frames_behind > before.behind {
                    s.local_frames_behind
                } else {
                    before.behind
                },
            },
            None => before,
        }
    }
}

/// The worst figures are no better than those of any remote player and than zero, and each of
/// them is zero or the figure of some remote player.
pub proof fn law_worst_is_greatest(stats: Seq<Option<NetworkStats>>)
    ensures
        worst(stats).behind >= 0,
        forall|i: int|
            0 <= i < stats.len() && stats[i] is Some ==> (#[trigger] stats[i])->0.ping <= worst(
                stats,
            ).ping && stats[i]->0.local_frames_behind <= worst(stats).behind,
        worst(stats).ping == 0 || exists|i: int|
            0 <= i < stats.len() && stats[i] is Some && (#[trigger] stats[i])->0.ping == worst(
                stats,
            ).ping,
        worst(stats).behind == 0 || exists|i: int|
            0 <= i < stats.len() && stats[i] is Some && (
            #[trigger] stats[i])->0.local_frames_behind == worst(stats).behind,
    decreases stats.len(),
{
    if stats.len() > 0 {
        let before = stats.drop_last();
        law_worst_is_greatest(before);
        let last = stats.len() - 1;
        assert(stats.last() == stats[last]);
        assert forall|i: int| 0 <= i < stats.len() && stats[i] is Some implies (
        #[trigger] stats[i])->0.ping <= worst(stats).ping && stats[i]->0.local_frames_behind
            <= worst(stats).behind by {
            if i < last {
                assert(before[i] == stats[i]);
            }
        }
        if worst(stats).ping == worst(before).ping && worst(before).ping != 0 {
            let i = choose|i: int|
                0 <= i < before.len() && before[i] is Some && (#[trigger] before[i])->0.ping
                    == worst(before).ping;
            assert(stats[i] == before[i]);
        }
        if worst(stats).behind == worst(before).behind && worst(before).behind != 0 {
            let i = choose|i: int|
                0 <= i < before.len() && before[i] is Some && (
                #[trigger] before[i])->0.local_frames_behind == worst(before).behind;
            assert(stats[i] == before[i]);
        }
    }
}

/// The worst ping and the worst lag over all remote players; local players, and players of whom
/// nothing is known yet, have no figures.
pub fn worst_stats(stats: &Vec<Option<NetworkStats>>) -> (out: WorstStats)
    ensures
        out == worst(stats@),
        forall|i: int|
            0 <= i < stats@.len() && stats@[i] is Some ==> (#[trigger] stats@[i])->0.ping
                <= out.ping && stats@[i]->0.local_frames_behind <= out.behind,
        out.ping == 0 || exists|i: int|
            0 <= i < stats@.len() && stats@[i] is Some && (#[trigger] stats@[i])->0.ping
                == out.ping,
        out.behind == 0 || exists|i: int|
            0 <= i < stats@.len() && stats@[i] is Some && (
            #[trigger] stats@[i])->0.local_frames_behind == out.behind,
        out.behind >= 0,
{
    proof {
        law_worst_is_greatest(stats@);
    }
    let mut ping: u128 = 0;
    let mut behind: i32 = 0;
    let mut i: usize = 0;
    assert(stats@.take(0) =~= Seq::<Option<NetworkStats>>::empty());
    while i < stats.len()
        invariant
            i <= stats@.len(),
            worst(stats@.take(i as int)) == (WorstStats { ping, behind }),
        decreases stats@.len() - i,
    {
        assert(stats@.take(i + 1).drop_last() =~= stats@.take(i as int));
        if let Some(s) = stats[i] {
            if s.ping > ping {
                ping = s.ping;
            }
            if s.local_frames_behind > behind {
                behind = s.local_frames_behind;
            }
        }
        i = i + 1;
    }
    assert(stats@.take(i as int) =~= stats@);
    WorstStats { ping, behind }
}

/// The overlay line.
pub open spec fn overlay_wording(
    worst: WorstStats,
    up_kbps: u64,
    down_kbps: u64,
    ahead: i32,
) -> Seq<char> {
    "Ping: "@ + decimal(worst.ping as nat) + "ms  Up: "@ + decimal(up_kbps as nat)
        + " kb/s  Down: "@ + decimal(down_kbps as nat) + " kb/s  Lead: "@ + signed_decimal(
        ahead as int,
    ) + "  Lag: "@ + signed_decimal(worst.behind as int)
}

/// Writes the overlay line: ping in milliseconds, throughput in kilobits per second, and by how
/// many frames this machine leads and lags.
pub fn overlay_line(worst: &WorstStats, up_kbps: u64, down_kbps: u64, ahead: i32) -> (line: String)
    ensures
        line@ == overlay_wording(*worst, up_kbps, down_kbps, ahead),
{
    let mut line = "Ping: ".to_string();
    push_decimal(&mut line, worst.ping);
    line.append("ms  Up: ");
    push_decimal(&mut line, up_kbps as u128);
    line.append(" kb/s  Down: ");
    push_decimal(&mut line, down_kbps as u128);
    line.append(" kb/s  Lead: ");
    push_signed(&mut line, ahead);
    line.append("  Lag: ");
    push_signed(&mut line, worst.behind);
    line
}

/// What a counter has grown by is what has to be added to the last sample to get to it; a counter
/// below the last sample has not grown.
pub proof fn law_growth(now: u64, last: u64)
    ensures
        now >= last ==> last + growth(now, last) == now,
        now < last ==> growth(now, last) == 0,
{
}

/// The line names every figure, each in its place and in full.
pub proof fn law_line_shows_every_figure(
    worst: WorstStats,
    up_kbps: u64,
    down_kbps: u64,
    ahead: i32,
)
    ensures
        ({
            let ping = "Ping: "@ + decimal(worst.ping as nat);
            let up = "ms  Up: "@ + decimal(up_kbps as nat);
            let down = " kb/s  Down: "@ + decimal(down_kbps as nat);
            let lead = " kb/s  Lead: "@ + signed_decimal(ahead as int);
            let lag = "  Lag: "@ + signed_decimal(worst.behind as int);
            overlay_wording(worst, up_kbps, down_kbps, ahead) == seq![
                ping,
                up,
                down,
                lead,
                lag,
            ].flatten()
        }),
{
    let ping = "Ping: "@ + decimal(worst.ping as nat);
    let up = "ms  Up: "@ + decimal(up_kbps as nat);
    let down = " kb/s  Down: "@ + decimal(down_kbps as nat);
    let lead = " kb/s  Lead: "@ + signed_decimal(ahead as int);
    let lag = "  Lag: "@ + signed_decimal(worst.behind as int);
    let all = seq![ping, up, down, lead, lag];
    all.lemma_flatten_and_flatten_alt_are_equivalent();
    reveal_with_fuel(Seq::flatten_alt, 6);
    assert(all.flatten_alt() =~= ping + up + down + lead + lag) by {
        assert(all.drop_last() =~= seq![ping, up, down, lead]);
        assert(seq![ping, up, down, lead].drop_last() =~= seq![ping, up, down]);
        assert(seq![ping, up, down].drop_last() =~= seq![ping, up]);
        assert(seq![ping, up].drop_last() =~= seq![ping]);
        assert(seq![ping].drop_last() =~= Seq::<Seq<char>>::empty());
    }
    assert(overlay_wording(worst, up_kbps, down_kbps, ahead) =~= ping + up + down + lead + lag);
}

} // verus!
