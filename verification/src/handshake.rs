//! How the machines of a session find each other and the session is set up.

use crate::config::{NetplayConfig, RtcIceServerConfig};
use crate::netplay::Netplay;
use crate::notice::Notice;
use crate::outbox::{outgoing, packets};
use crate::peer::{contains_peer, PeerId};
use crate::slots::{
    all_below, all_readable, announcement, disjoint, entries, forget_peers, from_another,
    get_player_numbers, has_owner, heard, heard_from, law_all_machines_agree, lists, own, own_part,
    owner_seen, owners_among, send_player_number, slots_below, verify_peers, PlayerNumbers,
};
use std::collections::VecDeque;
use vstd::hash_map::StringHashMap;
use vstd::prelude::*;

verus! {

/// Nanoseconds after which the player is told again that the search goes on.
pub const PROGRESS_NANOS: u128 = 4_000_000_000;

/// Nanoseconds that a session has to get running.
pub const START_TIMEOUT_NANOS: u128 = 10_000_000_000;

/// The index of the channel for the session's own packets.
pub const SESSION_CHANNEL: usize = 0;

/// The index of the channel for messages between the machines.
pub const MESSAGE_CHANNEL: usize = 1;

/// What a channel promises.
#[derive(Clone, Copy, Debug, PartialEq, Eq, Structural)]
pub enum ChannelKind {
    /// Packets come once, in any order, or not at all.
    Unreliable,
    /// Packets come once and in order.
    Reliable,
}

/// What the socket is made with.
pub struct SocketPlan {
    pub room_url: String,
    pub channels: Vec<ChannelKind>,
    /// The ICE server to use in the place of the usual one.
    pub ice_server: Option<RtcIceServerConfig>,
}

/// Lays out the socket: the room of the configuration, an unreliable channel for the session and
/// a reliable one for messages, and the ICE server, if one could be read.
pub fn socket_plan(netplay_config: &NetplayConfig, ice_config: Option<RtcIceServerConfig>) -> (plan:
    SocketPlan)
    ensures
        plan.room_url@ == netplay_config.server_addr@,
        plan.channels@ == seq![ChannelKind::Unreliable, ChannelKind::Reliable],
        plan.channels@[SESSION_CHANNEL as int] == ChannelKind::Unreliable,
        plan.channels@[MESSAGE_CHANNEL as int] == ChannelKind::Reliable,
        plan.ice_server == ice_config,
{
    let channels = vec![ChannelKind::Unreliable, ChannelKind::Reliable];
    SocketPlan {
        room_url: netplay_config.server_addr.clone(),
        channels,
        ice_server: ice_config,
    }
}

/// What the socket reports of a peer.
#[derive(Clone, Copy, Debug, PartialEq, Eq, Structural)]
pub enum PeerState {
    Connected,
    Disconnected,
}

/// What is done at the start of a round of the search.
pub struct RoundStart {
    /// Whether the wait begins anew, because a peer has left.
    pub reset_timer: bool,
    /// The announcements to send.
    pub announcements: Vec<(PeerId, Vec<u8>)>,
}

/// Begins a round: the slots of this machine are announced to every peer that is connected.
pub fn begin_round(
    changes: &Vec<PeerState>,
    connected_peers: &Vec<PeerId>,
    local_players: &Vec<usize>,
) -> (start: RoundStart)
    ensures
        start.reset_timer == changes@.contains(PeerState::Disconnected),
        packets(start.announcements@) == outgoing(
            connected_peers@,
            seq![announcement(local_players@)],
        ),
{
    let mut reset_timer = false;
    let mut i: usize = 0;
    while i < changes.len()
        invariant
            i <= changes@.len(),
            reset_timer == exists|j: int|
                0 <= j < i && (#[trigger] changes@[j]) == PeerState::Disconnected,
        decreases changes@.len() - i,
    {
        if changes[i] == PeerState::Disconnected {
            reset_timer = true;
        }
        i = i + 1;
    }
    RoundStart { reset_timer, announcements: send_player_number(connected_peers, local_players) }
}

/// How a round of the search ends.
#[derive(Clone, Copy, Debug, PartialEq, Eq, Structural)]
pub enum RoundEnd {
    /// Every slot has a known owner, no other slot is claimed, and all owners are connected.
    Complete,
    /// The search goes on.
    Searching {
        /// Whether the socket is closed and a new one opened, and the wait begins anew.
        restart: bool,
        /// Whether the player is told again that the search goes on.
        show_progress: bool,
    },
}

/// The owners known after the packets of a round. Without a connected peer nothing is listened to.
pub open spec fn owners_after(
    owners: Map<usize, Option<PeerId>>,
    connected_peers: Seq<PeerId>,
    received: Seq<(PeerId, Seq<u8>)>,
) -> Map<usize, Option<PeerId>> {
    if connected_peers.len() == 0 {
        owners
    } else {
        heard(owners, received)
    }
}

/// Whether the search is over: some peer is connected, the slots of the players, as many as there
/// are and no others, have a known owner, and the owners are this machine and connected peers.
pub open spec fn search_over(
    owners: Map<usize, Option<PeerId>>,
    connected_peers: Seq<PeerId>,
    number_of_players: usize,
) -> bool {
    &&& connected_peers.len() > 0
    &&& owners.len() == number_of_players
    &&& all_below(owners, number_of_players)
    &&& owners_among(owners, connected_peers)
}

/// Ends a round: notes the owners that peers have announced, and decides whether the search is
/// over, or starts again because it has taken longer than `timeout_nanos`.
pub fn end_round(
    owners: &mut PlayerNumbers,
    number_of_players: usize,
    connected_peers: &Vec<PeerId>,
    received: &Vec<(PeerId, Vec<u8>)>,
    elapsed_nanos: u128,
    timeout_nanos: u128,
    progress_nanos: u128,
) -> (end: RoundEnd)
    requires
        connected_peers@.len() > 0 ==> all_readable(packets(received@)),
    ensures
        ({
            let known = owners_after(old(owners)@, connected_peers@, packets(received@));
            if search_over(known, connected_peers@, number_of_players) {
                end == RoundEnd::Complete && final(owners)@ == known
            } else {
                let restart = elapsed_nanos > timeout_nanos;
                &&& end == (RoundEnd::Searching {
                    restart,
                    show_progress: progress_nanos > PROGRESS_NANOS,
                })
                &&& final(owners)@ == (if restart {
                    own_part(known)
                } else {
                    known
                })
            }
        }),
{
    if connected_peers.len() > 0 {
        get_player_numbers(received, owners);
        if owners.len() == number_of_players && slots_below(owners, number_of_players)
            && verify_peers(connected_peers, owners) {
            return RoundEnd::Complete;
        }
    }
    let restart = elapsed_nanos > timeout_nanos;
    if restart {
        *owners = forget_peers(owners);
    }
    RoundEnd::Searching { restart, show_progress: progress_nanos > PROGRESS_NANOS }
}

/// Counts the slots that have no known owner yet, for the player.
pub fn still_connecting(number_of_players: usize, owners: &PlayerNumbers) -> (notice: Notice)
    requires
        owners@.len() <= number_of_players,
    ensures
        notice == Notice::StillConnecting((number_of_players - owners@.len()) as usize),
{
    Notice::StillConnecting(number_of_players - owners.len())
}

/// Who drives a player slot.
#[derive(Clone, Copy, Debug, PartialEq, Eq, Structural)]
pub enum PlayerType {
    Local,
    Remote(PeerId),
}

/// What the session is made with.
pub struct SessionPlan {
    pub num_players: usize,
    /// The input delay in frames.
    pub input_delay: usize,
    pub fps: usize,
    /// Every how many frames the machines compare their states.
    pub desync_interval: u32,
    /// By how many frames the session may run ahead of the inputs it has.
    pub max_prediction: usize,
    /// After how many silent seconds a peer counts as gone.
    pub disconnect_timeout_secs: u64,
    /// The players in the order of their slots.
    pub players: Vec<(usize, PlayerType)>,
}

/// The player that an owner makes.
pub open spec fn player_type(owner: Option<PeerId>) -> PlayerType {
    match owner {
        Some(peer) => PlayerType::Remote(peer),
        None => PlayerType::Local,
    }
}

/// Whether `players` lists, in the order of the slots, every slot with its player.
pub open spec fn players_of(
    players: Seq<(usize, PlayerType)>,
    owners: Map<usize, Option<PeerId>>,
) -> bool {
    &&& forall|i: int, j: int|
        0 <= i < j < players.len() ==> (#[trigger] players[i]).0 < (#[trigger] players[j]).0
    &&& forall|i: int|
        0 <= i < players.len() ==> owners.contains_key((#[trigger] players[i]).0)
            && players[i].1 == player_type(owners[players[i].0])
    &&& forall|slot: usize| #[trigger]
        owners.contains_key(slot) ==> exists|i: int|
            0 <= i < players.len() && (#[trigger] players[i]).0 == slot
}

/// The peers among the players, each at the place of its first slot.
pub open spec fn remote_peers(players: Seq<(usize, PlayerType)>) -> Seq<PeerId>
    decreases players.len(),
{
    if players.len() == 0 {
        Seq::empty()
    } else {
        let before = remote_peers(players.drop_last());
        match players.last().1 {
            PlayerType::Remote(peer) if !before.contains(peer) => before.push(peer),
            _ => before,
        }
    }
}

/// A peer that owns several slots is listed once, so that messages go to it once; a machine is
/// listed exactly if it is another one that owns a slot.
pub proof fn law_remote_peers(players: Seq<(usize, PlayerType)>)
    ensures
        remote_peers(players).no_duplicates(),
        forall|peer: PeerId| #[trigger]
            remote_peers(players).contains(peer) <==> exists|i: int|
                0 <= i < players.len() && (#[trigger] players[i]).1 == PlayerType::Remote(peer),
    decreases players.len(),
{
    if players.len() > 0 {
        let before = players.drop_last();
        let listed = remote_peers(before);
        let all = remote_peers(players);
        law_remote_peers(before);
        assert forall|peer: PeerId| #[trigger] all.contains(peer) <==> exists|i: int|
            0 <= i < players.len() && (#[trigger] players[i]).1 == PlayerType::Remote(peer) by {
            if all.contains(peer) {
                if listed.contains(peer) {
                    let i = choose|i: int|
                        0 <= i < before.len() && (#[trigger] before[i]).1 == PlayerType::Remote(
                            peer,
                        );
                    assert(players[i].1 == PlayerType::Remote(peer));
                } else {
                    assert(players[players.len() - 1].1 == PlayerType::Remote(peer));
                }
            }
            if exists|i: int|
                0 <= i < players.len() && (#[trigger] players[i]).1 == PlayerType::Remote(peer) {
                let i = choose|i: int|
                    0 <= i < players.len() && (#[trigger] players[i]).1 == PlayerType::Remote(peer);
                if i < before.len() {
                    assert(before[i].1 == PlayerType::Remote(peer));
                    assert(listed.contains(peer));
                    let j = choose|j: int| 0 <= j < listed.len() && listed[j] == peer;
                    assert(all[j] == peer);
                } else if !listed.contains(peer) {
                    assert(all[all.len() - 1] == peer);
                }
            }
        }
    }
}

/// When the search is over, every slot has exactly one player, in order, and every remote one of
/// them is connected.
pub proof fn law_every_slot_has_a_player(
    owners: Map<usize, Option<PeerId>>,
    connected_peers: Seq<PeerId>,
    number_of_players: usize,
    players: Seq<(usize, PlayerType)>,
)
    requires
        search_over(owners, connected_peers, number_of_players),
        players_of(players, owners),
    ensures
        forall|slot: usize| #[trigger] owners.contains_key(slot) <==> slot < number_of_players,
        players.len() == number_of_players,
        forall|i: int| 0 <= i < players.len() ==> (#[trigger] players[i]).0 == i,
        forall|i: int|
            0 <= i < players.len() ==> match (#[trigger] players[i]).1 {
                PlayerType::Remote(peer) => connected_peers.contains(peer),
                PlayerType::Local => true,
            },
        forall|peer: PeerId| #[trigger]
            remote_peers(players).contains(peer) ==> connected_peers.contains(peer),
{
    let keys = players.map_values(|p: (usize, PlayerType)| p.0);
    assert forall|i: int, j: int|
        0 <= i < keys.len() && 0 <= j < keys.len() && i != j implies keys[i] != keys[j] by {
        if i < j {
            assert(players[i].0 < players[j].0);
        } else {
            assert(players[j].0 < players[i].0);
        }
    }
    assert forall|slot: usize| keys.to_set().contains(slot) == owners.dom().contains(slot) by {
        if keys.contains(slot) {
            let i = choose|i: int| 0 <= i < keys.len() && keys[i] == slot;
            assert(owners.contains_key(players[i].0));
        }
        if owners.contains_key(slot) {
            let i = choose|i: int| 0 <= i < players.len() && (#[trigger] players[i]).0 == slot;
            assert(keys[i] == slot);
        }
    }
    assert(keys.to_set() =~= owners.dom());
    keys.unique_seq_to_set();
    assert forall|i: int| 0 <= i < players.len() implies (#[trigger] players[i]).0 == i by {
        lemma_increasing_fills(players, number_of_players as int, i);
    }
    assert forall|i: int| 0 <= i < players.len() implies match (#[trigger] players[i]).1 {
        PlayerType::Remote(peer) => connected_peers.contains(peer),
        PlayerType::Local => true,
    } by {
        assert(owners.contains_key(players[i].0));
    }
    assert forall|slot: usize| slot < number_of_players implies #[trigger] owners.contains_key(
        slot,
    ) by {
        assert(players[slot as int].0 == slot);
    }
    law_remote_peers(players);
}

/// The slots of that many players.
spec fn slots_of(number_of_players: nat) -> Set<usize> {
    Set::new(|slot: usize| slot < number_of_players)
}

proof fn lemma_slots_of(number_of_players: nat)
    requires
        number_of_players <= usize::MAX,
    ensures
        slots_of(number_of_players).finite(),
        slots_of(number_of_players).len() == number_of_players,
    decreases number_of_players,
{
    if number_of_players == 0 {
        assert(slots_of(0) =~= Set::empty());
    } else {
        let fewer = (number_of_players - 1) as nat;
        lemma_slots_of(fewer);
        assert(slots_of(number_of_players) =~= slots_of(fewer).insert(fewer as usize));
    }
}

/// The search ends: where no slot belongs to two machines, and all slots together are those of the
/// players, a machine that has heard from every other, in whatever order and however often, and to
/// which every other is connected, has found what it was looking for.
pub proof fn law_search_ends(
    machines: Seq<(PeerId, Seq<usize>)>,
    me: int,
    received: Seq<(PeerId, Seq<u8>)>,
    connected_peers: Seq<PeerId>,
    number_of_players: usize,
)
    requires
        machines.len() > 1,
        0 <= me < machines.len(),
        disjoint(machines),
        forall|slot: usize| #[trigger] has_owner(machines, slot) <==> slot < number_of_players,
        forall|k: int|
            0 <= k < machines.len() ==> 8 * (#[trigger] machines[k]).1.len() <= usize::MAX,
        forall|k: int|
            0 <= k < received.len() ==> from_another(#[trigger] received[k], machines, me),
        forall|j: int|
            0 <= j < machines.len() && j != me ==> #[trigger] heard_from(received, machines, j),
        forall|j: int|
            0 <= j < machines.len() && j != me ==> connected_peers.contains(
                (#[trigger] machines[j]).0,
            ),
    ensures
        search_over(
            owners_after(own(machines[me].1), connected_peers, received),
            connected_peers,
            number_of_players,
        ),
{
    let known = heard(own(machines[me].1), received);
    let other: int = if me == 0 {
        1
    } else {
        0
    };
    assert(connected_peers.contains(machines[other].0));
    assert forall|slot: usize| #[trigger] known.contains_key(slot) <==> slot
        < number_of_players by {
        law_all_machines_agree(machines, me, received, slot);
    }
    assert(known.dom() =~= slots_of(number_of_players as nat));
    lemma_slots_of(number_of_players as nat);
    assert forall|slot: usize| #[trigger] known.contains_key(slot) implies match known[slot] {
        Some(peer) => connected_peers.contains(peer),
        None => true,
    } by {
        law_all_machines_agree(machines, me, received, slot);
        let j = choose|j: int| 0 <= j < machines.len() && (#[trigger] machines[j]).1.contains(slot);
        assert(known[slot] == owner_seen(machines, me, j));
    }
}

proof fn lemma_increasing_from_below(players: Seq<(usize, PlayerType)>, i: int)
    requires
        forall|i: int, j: int|
            0 <= i < j < players.len() ==> (#[trigger] players[i]).0 < (#[trigger] players[j]).0,
        0 <= i < players.len(),
    ensures
        players[i].0 >= i,
    decreases i,
{
    if i > 0 {
        lemma_increasing_from_below(players, i - 1);
        assert(players[i - 1].0 < players[i].0);
    }
}

proof fn lemma_increasing_fills(players: Seq<(usize, PlayerType)>, n: int, i: int)
    requires
        forall|i: int, j: int|
            0 <= i < j < players.len() ==> (#[trigger] players[i]).0 < (#[trigger] players[j]).0,
        forall|i: int| 0 <= i < players.len() ==> (#[trigger] players[i]).0 < n,
        players.len() == n,
        0 <= i < players.len(),
    ensures
        players[i].0 == i,
    decreases n - i,
{
    lemma_increasing_from_below(players, i);
    if i + 1 < n {
        lemma_increasing_fills(players, n, i + 1);
        assert(players[i].0 < players[i + 1].0);
    }
}

/// Sets up the session once the search is over: what the session is made with, and its state on
/// this machine. `pal` asks for fifty frames a second in the place of sixty; `debug` gives a
/// peer more time before it counts as gone.
pub fn init<I, C>(
    netplay_config: &NetplayConfig,
    owners: &PlayerNumbers,
    pal: bool,
    debug: bool,
) -> (out: (SessionPlan, Netplay<I, C>))
    ensures
        out.0.num_players == netplay_config.number_of_players,
        out.0.input_delay == netplay_config.input_delay,
        out.0.fps == (if pal {
            50usize
        } else {
            60usize
        }),
        out.0.desync_interval == 60,
        out.0.max_prediction == 16,
        out.0.disconnect_timeout_secs == (if debug {
            10u64
        } else {
            5u64
        }),
        players_of(out.0.players@, owners@),
        out.1.peers@ == remote_peers(out.0.players@),
        out.1.peers@.no_duplicates(),
        forall|i: int|
            0 <= i < out.0.players@.len() ==> {
                let (slot, player) = #[trigger] out.0.players@[i];
                &&& owners@.contains_key(slot)
                &&& player == PlayerType::Local <==> owners@[slot] is None
                &&& forall|peer: PeerId|
                    player == PlayerType::Remote(peer) <==> owners@[slot] == Some(peer)
            },
        forall|slot: usize| #[trigger]
            owners@.contains_key(slot) ==> exists|i: int|
                0 <= i < out.0.players@.len() && (#[trigger] out.0.players@[i]).0 == slot,
        forall|peer: PeerId| #[trigger]
            out.1.peers@.contains(peer) <==> exists|slot: usize| #[trigger]
                owners@.contains_key(slot) && owners@[slot] == Some(peer),
        !out.1.disconnected,
        out.1.local_players@ == netplay_config.local_players@,
        forall|port: int|
            0 <= port < 4 ==> #[trigger] out.1.connected@[port] == (
            netplay_config.number_of_players > port),
        out.1.input_delay == netplay_config.input_delay,
        out.1.messages@ == Map::<Seq<char>, Vec<u8>>::empty(),
        out.1.received_data@.len() == 0,
        out.1.inputs@.len() == 0,
        out.1.requests@.len() == 0,
        out.1.incoming_message@.len() == 0,
        out.1.ice_config_path == netplay_config.ice_config_path,
        out.1.number_of_players == netplay_config.number_of_players,
        out.1.last_bytes_sent == 0,
        out.1.last_bytes_recv == 0,
{
    let all = entries(owners);
    let mut players: Vec<(usize, PlayerType)> = Vec::new();
    let mut peers: Vec<PeerId> = Vec::new();
    let mut i: usize = 0;
    while i < all.len()
        invariant
            i <= all@.len(),
            players@.len() == i,
            forall|j: int|
                0 <= j < i ==> (#[trigger] players@[j]) == (all@[j].0, player_type(all@[j].1)),
            peers@ == remote_peers(players@),
        decreases all@.len() - i,
    {
        let ghost before = players@;
        match all[i].1 {
            Some(peer) => {
                players.push((all[i].0, PlayerType::Remote(peer)));
                if !contains_peer(&peers, peer) {
                    peers.push(peer);
                }
            },
            None => {
                players.push((all[i].0, PlayerType::Local));
            },
        }
        assert(players@.drop_last() =~= before);
        i = i + 1;
    }
    proof {
        law_remote_peers(players@);
        assert forall|slot: usize| #[trigger] owners@.contains_key(slot) implies exists|j: int|
            0 <= j < players@.len() && (#[trigger] players@[j]).0 == slot by {
            let j = choose|j: int| 0 <= j < all@.len() && (#[trigger] all@[j]).0 == slot;
            assert(players@[j].0 == slot);
        }
        assert forall|a: int, b: int| 0 <= a < b < players@.len() implies (
        #[trigger] players@[a]).0 < (#[trigger] players@[b]).0 by {
            assert(all@[a].0 < all@[b].0);
        }
        assert forall|j: int| 0 <= j < players@.len() implies owners@.contains_key(
            (#[trigger] players@[j]).0,
        ) && players@[j].1 == player_type(owners@[players@[j].0]) by {
            assert(owners@.contains_key(all@[j].0));
        }
        law_players_follow_owners(players@, owners@);
    }
    let local_players = netplay_config.local_players.clone();
    assert(local_players@ =~= netplay_config.local_players@);
    let n: usize = netplay_config.number_of_players;
    let plan = SessionPlan {
        num_players: n,
        input_delay: netplay_config.input_delay,
        fps: if pal {
            50
        } else {
            60
        },
        desync_interval: 60,
        max_prediction: 16,
        disconnect_timeout_secs: if debug {
            10
        } else {
            5
        },
        players,
    };
    let netplay = Netplay {
        disconnected: false,
        peers,
        local_players,
        connected: [n > 0, n > 1, n > 2, n > 3],
        input_delay: netplay_config.input_delay,
        messages: StringHashMap::new(),
        received_data: VecDeque::new(),
        inputs: Vec::new(),
        requests: VecDeque::new(),
        incoming_message: Vec::new(),
        ice_config_path: netplay_config.ice_config_path.clone(),
        number_of_players: n,
        last_bytes_sent: 0,
        last_bytes_recv: 0,
    };
    (plan, netplay)
}

/// Whether a session that is not running has used up its time to get there.
pub fn start_timed_out(elapsed_nanos: u128) -> (expired: bool)
    ensures
        expired == (elapsed_nanos > START_TIMEOUT_NANOS),
{
    elapsed_nanos > START_TIMEOUT_NANOS
}

/// Every slot is played by its owner: a slot that a peer owns by that peer, a slot that nobody else
/// owns by this machine; and the peers of the session are exactly the peers that own a slot.
pub proof fn law_players_follow_owners(
    players: Seq<(usize, PlayerType)>,
    owners: Map<usize, Option<PeerId>>,
)
    requires
        players_of(players, owners),
    ensures
        forall|i: int|
            0 <= i < players.len() ==> {
                let (slot, player) = #[trigger] players[i];
                &&& owners.contains_key(slot)
                &&& player == PlayerType::Local <==> owners[slot] is None
                &&& forall|peer: PeerId|
                    player == PlayerType::Remote(peer) <==> owners[slot] == Some(peer)
            },
        forall|slot: usize| #[trigger]
            owners.contains_key(slot) ==> exists|i: int|
                0 <= i < players.len() && (#[trigger] players[i]).0 == slot,
        forall|i: int, j: int|
            0 <= i < j < players.len() ==> (#[trigger] players[i]).0 < (#[trigger] players[j]).0,
        forall|peer: PeerId| #[trigger]
            remote_peers(players).contains(peer) <==> exists|slot: usize| #[trigger]
                owners.contains_key(slot) && owners[slot] == Some(peer),
{
    law_remote_peers(players);
    assert forall|peer: PeerId| #[trigger]
        remote_peers(players).contains(peer) <==> exists|slot: usize| #[trigger]
            owners.contains_key(slot) && owners[slot] == Some(peer) by {
        if remote_peers(players).contains(peer) {
            let i = choose|i: int|
                0 <= i < players.len() && (#[trigger] players[i]).1 == PlayerType::Remote(peer);
            assert(owners.contains_key(players[i].0));
        }
        if exists|slot: usize| #[trigger]
            owners.contains_key(slot) && owners[slot] == Some(peer) {
            let slot = choose|slot: usize| #[trigger]
                owners.contains_key(slot) && owners[slot] == Some(peer);
            let i = choose|i: int| 0 <= i < players.len() && (#[trigger] players[i]).0 == slot;
            assert(players[i].1 == PlayerType::Remote(peer));
        }
    }
}

/// Owners and players tell the same: no two owners make the same player.
pub proof fn law_player_tells_owner(a: Option<PeerId>, b: Option<PeerId>)
    ensures
        player_type(a) == player_type(b) <==> a == b,
        player_type(a) == PlayerType::Local <==> a is None,
        a matches Some(peer) ==> player_type(a) == PlayerType::Remote(peer),
{
}

/// Peers are listed in the order of their first slots: more players add peers at the end only.
pub proof fn law_remote_peers_in_order(players: Seq<(usize, PlayerType)>, k: int)
    requires
        0 <= k <= players.len(),
    ensures
        remote_peers(players.take(k)).len() <= remote_peers(players).len(),
        remote_peers(players).take(remote_peers(players.take(k)).len() as int) == remote_peers(
            players.take(k),
        ),
    decreases players.len() - k,
{
    let some = remote_peers(players.take(k));
    let all = remote_peers(players);
    if k == players.len() {
        assert(players.take(k) =~= players);
        assert(all.take(all.len() as int) =~= all);
    } else {
        law_remote_peers_in_order(players, k + 1);
        let more = remote_peers(players.take(k + 1));
        assert(players.take(k + 1).drop_last() =~= players.take(k));
        assert(more.take(some.len() as int) =~= some);
        assert(all.take(some.len() as int) =~= all.take(more.len() as int).take(
            some.len() as int,
        ));
    }
}

/// The search is over exactly if somebody is connected, the slots with an owner are the slots of
/// the players, and every peer among the owners is connected.
pub proof fn law_search_over_means_all_found(
    owners: Map<usize, Option<PeerId>>,
    connected_peers: Seq<PeerId>,
    number_of_players: usize,
)
    requires
        owners.dom().finite(),
    ensures
        search_over(owners, connected_peers, number_of_players) <==> {
            &&& connected_peers.len() > 0
            &&& forall|slot: usize| #[trigger]
                owners.contains_key(slot) <==> slot < number_of_players
            &&& forall|slot: usize, peer: PeerId| #[trigger]
                owners.contains_key(slot) && owners[slot] == Some(peer)
                    ==> #[trigger] connected_peers.contains(peer)
        },
{
    let n = number_of_players as nat;
    lemma_slots_of(n);
    if search_over(owners, connected_peers, number_of_players) {
        assert(owners.dom().subset_of(slots_of(n)));
        vstd::set_lib::lemma_subset_equality(owners.dom(), slots_of(n));
        assert forall|slot: usize| #[trigger] owners.contains_key(slot) <==> slot
            < number_of_players by {
            assert(slots_of(n).contains(slot) == owners.dom().contains(slot));
        }
    }
    if forall|slot: usize| #[trigger] owners.contains_key(slot) <==> slot < number_of_players {
        assert(owners.dom() =~= slots_of(n));
    }
}

/// Announcements are listened to exactly if somebody is connected.
pub proof fn law_listening_needs_a_peer(
    owners: Map<usize, Option<PeerId>>,
    connected_peers: Seq<PeerId>,
    received: Seq<(PeerId, Seq<u8>)>,
)
    ensures
        connected_peers.len() == 0 ==> owners_after(owners, connected_peers, received) == owners,
        connected_peers.len() > 0 ==> owners_after(owners, connected_peers, received) == heard(
            owners,
            received,
        ),
{
}

} // verus!
