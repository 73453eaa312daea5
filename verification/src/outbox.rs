//! What a machine sends to the other machines of the session.

use crate::bytes::{
    be_bytes, byte_strings, cut, i64_to_be, law_pieces_in_place, pieces, twos_complement,
    u64_to_be,
};
use crate::mailbox::{change_input_delay, delay_effects, Effect, Mailbox};
use crate::netplay::Netplay;
use crate::peer::PeerId;
use crate::wire::{message_bytes, NetplayMessage};
use vstd::prelude::*;

verus! {

/// The most bytes of a message that go into one packet.
pub const CHUNK_SIZE: usize = 16384;

/// The peers and byte strings that a vector of packets holds.
pub open spec fn packets(v: Seq<(PeerId, Vec<u8>)>) -> Seq<(PeerId, Seq<u8>)> {
    v.map_values(|p: (PeerId, Vec<u8>)| (p.0, p.1@))
}

/// Each of the byte strings, in their order, for one peer.
pub open spec fn addressed(peer: PeerId, chunks: Seq<Seq<u8>>) -> Seq<(PeerId, Seq<u8>)> {
    chunks.map_values(|chunk: Seq<u8>| (peer, chunk))
}

/// Each of the byte strings, in their order, for the first peer, then for the next, and so on.
pub open spec fn outgoing(peers: Seq<PeerId>, chunks: Seq<Seq<u8>>) -> Seq<(PeerId, Seq<u8>)>
    decreases peers.len(),
{
    if peers.len() == 0 {
        Seq::empty()
    } else {
        outgoing(peers.drop_last(), chunks) + addressed(peers.last(), chunks)
    }
}

/// The pieces in which a message is sent.
pub open spec fn message_pieces(name: Seq<char>, data: Seq<u8>) -> Seq<Seq<u8>> {
    pieces(message_bytes(name, data), CHUNK_SIZE as nat)
}

/// The packets that carry a message to these peers.
pub open spec fn sent(peers: Seq<PeerId>, name: Seq<char>, data: Seq<u8>) -> Seq<
    (PeerId, Seq<u8>),
> {
    outgoing(peers, message_pieces(name, data))
}

/// Packs a message, in pieces, for every peer.
pub fn send_message<I, C>(netplay: &Netplay<I, C>, message: &NetplayMessage) -> (out: Vec<
    (PeerId, Vec<u8>),
>)
    ensures
        packets(out@) == sent(netplay.peers@, message.name@, message.data@),
{
    let data = message.encode();
    let chunks = cut(&data, CHUNK_SIZE);
    let ghost strings = byte_strings(chunks@);
    let mut out: Vec<(PeerId, Vec<u8>)> = Vec::new();
    let mut i: usize = 0;
    assert(packets(out@) =~= outgoing(netplay.peers@.take(0), strings));
    while i < netplay.peers.len()
        invariant
            i <= netplay.peers@.len(),
            strings == byte_strings(chunks@),
            packets(out@) == outgoing(netplay.peers@.take(i as int), strings),
        decreases netplay.peers@.len() - i,
    {
        let peer = netplay.peers[i];
        let ghost before = packets(out@);
        let mut j: usize = 0;
        assert(before + addressed(peer, strings.take(0)) =~= before);
        while j < chunks.len()
            invariant
                j <= chunks@.len(),
                strings == byte_strings(chunks@),
                packets(out@) == before + addressed(peer, strings.take(j as int)),
            decreases chunks@.len() - j,
        {
            let ghost was = out@;
            let chunk = chunks[j].clone();
            assert(chunk@ =~= strings[j as int]);
            out.push((peer, chunk));
            assert(packets(out@) =~= packets(was).push((peer, strings[j as int])));
            j = j + 1;
            assert(packets(out@) =~= before + addressed(peer, strings.take(j as int)));
        }
        assert(strings.take(j as int) =~= strings);
        i = i + 1;
        assert(netplay.peers@.take(i as int).drop_last() =~= netplay.peers@.take(i - 1));
    }
    assert(netplay.peers@.take(i as int) =~= netplay.peers@);
    out
}

/// Packs the host's clock for every peer.
pub fn send_rtc<I, C>(netplay: &Netplay<I, C>, rtc: i64) -> (out: Vec<(PeerId, Vec<u8>)>)
    ensures
        packets(out@) == sent(netplay.peers@, "rtc"@, be_bytes(twos_complement(rtc), 8)),
{
    let message = NetplayMessage { name: "rtc".to_string(), data: i64_to_be(rtc) };
    send_message(netplay, &message)
}

/// Packs the host's random seed for every peer.
pub fn send_rng<I, C>(netplay: &Netplay<I, C>, seed: u64) -> (out: Vec<(PeerId, Vec<u8>)>)
    ensures
        packets(out@) == sent(netplay.peers@, "rng"@, be_bytes(seed as nat, 8)),
{
    let message = NetplayMessage { name: "rng".to_string(), data: u64_to_be(seed) };
    send_message(netplay, &message)
}

/// Packs the host's save of that type for every peer.
pub fn send_save<I, C>(netplay: &Netplay<I, C>, save_type: &str, save_data: &Vec<u8>) -> (out: Vec<
    (PeerId, Vec<u8>),
>)
    ensures
        packets(out@) == sent(netplay.peers@, save_type@, save_data@),
{
    let data = save_data.clone();
    assert(data@ =~= save_data@);
    let message = NetplayMessage { name: save_type.to_string(), data };
    send_message(netplay, &message)
}

/// What `send_input_delay` hands back: the packets to send, then what has to be set on this
/// machine.
pub struct DelaySent {
    pub packets: Vec<(PeerId, Vec<u8>)>,
    pub effects: Vec<Effect>,
}

/// Changes the input delay here and packs it for every peer. A delay of less than a frame is
/// passed over.
pub fn send_input_delay<I, C>(
    netplay: &mut Netplay<I, C>,
    input_delay: usize,
    local_handles: &Vec<usize>,
) -> (out: DelaySent)
    ensures
        input_delay < 1 ==> out.packets@.len() == 0 && out.effects@.len() == 0 && *final(netplay)
            == *old(netplay),
        input_delay >= 1 ==> {
            &&& packets(out.packets@) == sent(
                old(netplay).peers@,
                "input_delay"@,
                be_bytes(input_delay as nat, 8),
            )
            &&& out.effects@ == delay_effects(local_handles@, input_delay)
            &&& out.effects@.len() == local_handles@.len()
            &&& forall|i: int|
                0 <= i < local_handles@.len() ==> #[trigger] out.effects@[i] == (
                Effect::SetInputDelay { handle: local_handles@[i], delay: input_delay })
            &&& final(netplay).input_delay == input_delay
            &&& final(netplay).mailbox() == (Mailbox { input_delay, ..old(netplay).mailbox() })
            &&& final(netplay).received_data == old(netplay).received_data
            &&& final(netplay).same_outside_mailbox(*old(netplay))
        },
{
    if input_delay < 1 {
        return DelaySent { packets: Vec::new(), effects: Vec::new() };
    }
    let message = NetplayMessage {
        name: "input_delay".to_string(),
        data: u64_to_be(input_delay as u64),
    };
    let packets = send_message(netplay, &message);
    let effects = change_input_delay(netplay, input_delay, local_handles);
    DelaySent { packets, effects }
}

/// Packs the farewell for every peer; `None` if the session has already ended. Where there is a
/// farewell, it has to be given time to leave before the channel goes.
pub fn close<I, C>(netplay: &Netplay<I, C>) -> (out: Option<Vec<(PeerId, Vec<u8>)>>)
    ensures
        out is None <==> netplay.disconnected,
        out is Some ==> packets(out->0@) == sent(netplay.peers@, "disconnect"@, Seq::empty()),
{
    if netplay.disconnected {
        None
    } else {
        let message = NetplayMessage { name: "disconnect".to_string(), data: Vec::new() };
        Some(send_message(netplay, &message))
    }
}

/// Packets are told by the vectors that hold them, one by one.
pub proof fn law_packets(v: Seq<(PeerId, Vec<u8>)>)
    ensures
        packets(v).len() == v.len(),
        forall|i: int| 0 <= i < v.len() ==> #[trigger] packets(v)[i] == (v[i].0, v[i].1@),
{
}

/// Every peer gets every byte string, in its place: first all of them for the first peer, then all
/// of them for the next.
pub proof fn law_outgoing_in_place(peers: Seq<PeerId>, chunks: Seq<Seq<u8>>, i: int, j: int)
    ensures
        outgoing(peers, chunks).len() == peers.len() * chunks.len(),
        0 <= i < peers.len() && 0 <= j < chunks.len() ==> 0 <= i * chunks.len() + j < outgoing(
            peers,
            chunks,
        ).len() && outgoing(peers, chunks)[i * chunks.len() + j] == (peers[i], chunks[j]),
    decreases peers.len(),
{
    let c = chunks.len() as int;
    let n = peers.len() as int;
    if n > 0 {
        let before = peers.drop_last();
        law_outgoing_in_place(before, chunks, i, j);
        assert((n - 1) * c + c == n * c) by (nonlinear_arith);
        if 0 <= i < n && 0 <= j < c {
            if i < n - 1 {
                assert(before[i] == peers[i]);
            } else {
                assert(i * c + j - (n - 1) * c == j);
                assert((n - 1) * c >= 0) by (nonlinear_arith)
                    requires
                        n >= 1,
                        c >= 0,
                ;
            }
        }
    } else {
        assert(0 * c == 0);
    }
}

/// A message is sent to every peer as the bytes of the whole message, cut every 16384 bytes.
pub proof fn law_sent_in_place(
    peers: Seq<PeerId>,
    name: Seq<char>,
    data: Seq<u8>,
    i: int,
    j: int,
)
    ensures
        ({
            let bytes = message_bytes(name, data);
            let count = (bytes.len() + 16383) / 16384;
            &&& sent(peers, name, data).len() == peers.len() * count
            &&& 0 <= i < peers.len() && 0 <= j < count ==> 0 <= i * count + j < sent(
                peers,
                name,
                data,
            ).len() && sent(peers, name, data)[i * count + j] == (
                peers[i],
                bytes.subrange(
                    j * 16384,
                    if (j + 1) * 16384 <= bytes.len() {
                        (j + 1) * 16384
                    } else {
                        bytes.len() as int
                    },
                ),
            )
        }),
{
    law_pieces_in_place(message_bytes(name, data), 16384);
    law_outgoing_in_place(peers, message_pieces(name, data), i, j);
}

} // verus!
