//! The state of the signaling server, at which peers meet before they talk to each other directly.

use crate::assoc::AssocMap;
use crate::peer::{contains_peer, PeerId};
use crate::room::{ClientAddr, RequestedRoom, RoomView};
use std::collections::{HashMap, HashSet};
use vstd::prelude::*;

verus! {

/// A peer that is connected. `sender` is the way to it.
pub struct Peer<S> {
    pub uuid: PeerId,
    pub room: RequestedRoom,
    pub sender: S,
}

/// A connected peer as a value of its own.
#[verifier::ext_equal]
pub struct PeerView<S> {
    pub uuid: PeerId,
    pub room: RoomView,
    pub sender: S,
}

impl<S> View for Peer<S> {
    type V = PeerView<S>;

    open spec fn view(&self) -> PeerView<S> {
        PeerView { uuid: self.uuid, room: self.room@, sender: self.sender }
    }
}

/// Why a peer cannot be sent to.
#[derive(Clone, Copy, Debug, PartialEq, Eq, Structural)]
pub enum SignalingError {
    UnknownPeer,
}

/// The state of the server: connections that have asked for a room and have no identifier yet,
/// those that have one and are not connected yet, the connected peers, the peers that meet in
/// each room, and the groups that were put together by number.
pub struct ServerState<S> {
    clients_waiting: AssocMap<ClientAddr, RequestedRoom>,
    clients_in_queue: HashMap<u128, RequestedRoom>,
    clients: HashMap<u128, Peer<S>>,
    rooms: AssocMap<RequestedRoom, HashSet<u128>>,
    matched_by_next: Vec<Vec<PeerId>>,
}

/// The state of the server as a value of its own.
#[verifier::ext_equal]
pub struct ServerView<S> {
    pub waiting: Map<ClientAddr, RoomView>,
    pub queued: Map<PeerId, RoomView>,
    pub clients: Map<PeerId, PeerView<S>>,
    pub rooms: Map<RoomView, Set<PeerId>>,
    pub matched: Set<Seq<PeerId>>,
}

spec fn room_views<K>(m: Map<K, RequestedRoom>) -> Map<K, RoomView> {
    m.map_values(|room: RequestedRoom| room@)
}

spec fn client_views<S>(m: Map<u128, Peer<S>>) -> Map<u128, PeerView<S>> {
    m.map_values(|peer: Peer<S>| peer@)
}

spec fn member_views(m: Map<RoomView, HashSet<u128>>) -> Map<RoomView, Set<u128>> {
    m.map_values(|members: HashSet<u128>| members@)
}

spec fn group_views(groups: Seq<Vec<PeerId>>) -> Set<Seq<PeerId>> {
    Set::new(|g: Seq<PeerId>| exists|i: int| 0 <= i < groups.len() && #[trigger] groups[i]@ == g)
}

impl<S> View for ServerState<S> {
    type V = ServerView<S>;

    closed spec fn view(&self) -> ServerView<S> {
        ServerView {
            waiting: room_views(self.clients_waiting@),
            queued: room_views(self.clients_in_queue@),
            clients: client_views(self.clients@),
            rooms: member_views(self.rooms@),
            matched: group_views(self.matched_by_next@),
        }
    }
}

impl<S> ServerView<S> {
    /// Every peer is filed under its own identifier; rooms hold finitely many peers, and a room
    /// that puts groups of a number together holds fewer peers than make a group.
    pub open spec fn valid(self) -> bool {
        &&& forall|id: PeerId| #[trigger]
            self.clients.contains_key(id) ==> self.clients[id].uuid == id
        &&& forall|room: RoomView| #[trigger]
            self.rooms.contains_key(room) ==> self.rooms[room].finite() && match room.next {
                Some(n) => self.rooms[room].len() < n,
                None => true,
            }
    }

    /// The peers in a room.
    pub open spec fn members(self, room: RoomView) -> Set<PeerId> {
        if self.rooms.contains_key(room) {
            self.rooms[room]
        } else {
            Set::empty()
        }
    }
}

/// The state after a connection has asked for a room.
pub open spec fn client_waits<S>(
    before: ServerView<S>,
    origin: ClientAddr,
    room: RoomView,
) -> ServerView<S> {
    ServerView { waiting: before.waiting.insert(origin, room), ..before }
}

/// The state after a waiting connection has got its identifier.
pub open spec fn id_assigned<S>(before: ServerView<S>, origin: ClientAddr, id: PeerId) -> ServerView<
    S,
> {
    ServerView {
        waiting: before.waiting.remove(origin),
        queued: before.queued.insert(id, before.waiting[origin]),
        ..before
    }
}

/// The state after a peer has left the queue.
pub open spec fn left_queue<S>(before: ServerView<S>, id: PeerId) -> ServerView<S> {
    ServerView { queued: before.queued.remove(id), ..before }
}

/// Whether `list` lists the peers of `set`, each once.
pub open spec fn lists_set(list: Seq<PeerId>, set: Set<PeerId>) -> bool {
    &&& list.no_duplicates()
    &&& list.to_set() == set
}

/// Whether one more peer makes a group, in a room with these members.
pub open spec fn completes_group(room: RoomView, members: Set<PeerId>) -> bool {
    match room.next {
        Some(n) => members.len() == n - 1,
        None => false,
    }
}

/// Whether `after` are the groups `before` and one more, of these members; in which order it lists
/// them is left open.
pub open spec fn group_formed(
    before: Set<Seq<PeerId>>,
    members: Set<PeerId>,
    after: Set<Seq<PeerId>>,
) -> bool {
    exists|group: Seq<PeerId>| #[trigger]
        lists_set(group, members) && after == before.insert(group)
}

/// Whether `after` is what the coming of `peer` makes of `before`, where `prev` are the peers that
/// it meets. If it makes a group complete, the group leaves the room.
pub open spec fn peer_added<S>(
    before: ServerView<S>,
    peer: PeerView<S>,
    prev: Seq<PeerId>,
    after: ServerView<S>,
) -> bool {
    let members = before.members(peer.room);
    &&& lists_set(prev, members)
    &&& after.waiting == before.waiting
    &&& after.queued == before.queued
    &&& after.clients == before.clients.insert(peer.uuid, peer)
    &&& if completes_group(peer.room, members) {
        &&& after.rooms == before.rooms.insert(peer.room, Set::empty())
        &&& group_formed(before.matched, members.insert(peer.uuid), after.matched)
    } else {
        &&& after.rooms == before.rooms.insert(peer.room, members.insert(peer.uuid))
        &&& after.matched == before.matched
    }
}

/// All peers but one.
pub open spec fn all_but(peer: PeerId) -> spec_fn(PeerId) -> bool {
    |p: PeerId| p != peer
}

/// A group without one of its members.
pub open spec fn group_without(group: Seq<PeerId>, peer: PeerId) -> Seq<PeerId> {
    group.filter(all_but(peer))
}

/// The groups in which `peer` is not.
pub open spec fn groups_without(matched: Set<Seq<PeerId>>, peer: PeerId) -> Set<Seq<PeerId>> {
    matched.filter(|group: Seq<PeerId>| !group.contains(peer))
}

/// Whether `after` is what the leaving of `peer` makes of the groups `before`, where `rest` are
/// the other members of its group. If it is in several groups, which of them counts is left open.
pub open spec fn matched_peer_removed(
    before: Set<Seq<PeerId>>,
    peer: PeerId,
    rest: Seq<PeerId>,
    after: Set<Seq<PeerId>>,
) -> bool {
    if exists|group: Seq<PeerId>| #[trigger] before.contains(group) && group.contains(peer) {
        &&& exists|group: Seq<PeerId>| #[trigger]
            before.contains(group) && group.contains(peer) && rest == group_without(group, peer)
        &&& after == (if rest.len() == 0 {
            groups_without(before, peer)
        } else {
            groups_without(before, peer).insert(rest)
        })
    } else {
        rest.len() == 0 && after == before
    }
}

/// The state without a peer; the room that it asked for is left by it too.
pub open spec fn peer_removed<S>(before: ServerView<S>, id: PeerId) -> ServerView<S> {
    if before.clients.contains_key(id) {
        let room = before.clients[id].room;
        ServerView {
            clients: before.clients.remove(id),
            rooms: if before.rooms.contains_key(room) {
                before.rooms.insert(room, before.rooms[room].remove(id))
            } else {
                before.rooms
            },
            ..before
        }
    } else {
        before
    }
}

fn list_members(set: &HashSet<u128>) -> (list: Vec<PeerId>)
    ensures
        lists_set(list@, set@),
{
    let mut list: Vec<PeerId> = Vec::new();
    let iter = set.iter();
    let ghost all = vstd::std_specs::iter::IteratorSpec::remaining(&iter);
    for id in it: iter
        invariant
            it.seq() == all,
            list@.len() == it.index(),
            forall|i: int| 0 <= i < list@.len() ==> #[trigger] list@[i] == *all[i],
    {
        list.push(*id);
    }
    proof {
        assert(list@ =~= all.unref());
        assert forall|i: int, j: int|
            0 <= i < list@.len() && 0 <= j < list@.len() && i != j implies list@[i] != list@[j] by {
            assert(all[i] != all[j]);
        }
    }
    list
}

/// `peers` without one of them.
pub fn without_peer(peers: &Vec<PeerId>, peer: PeerId) -> (rest: Vec<PeerId>)
    ensures
        rest@ == group_without(peers@, peer),
{
    let mut rest: Vec<PeerId> = Vec::new();
    let mut i: usize = 0;
    reveal(Seq::filter);
    assert(peers@.take(0).filter(all_but(peer)) =~= Seq::empty());
    while i < peers.len()
        invariant
            i <= peers@.len(),
            rest@ == peers@.take(i as int).filter(all_but(peer)),
        decreases peers@.len() - i,
    {
        reveal(Seq::filter);
        assert(peers@.take(i + 1).drop_last() =~= peers@.take(i as int));
        if peers[i] != peer {
            rest.push(peers[i]);
        }
        i = i + 1;
    }
    assert(peers@.take(i as int) =~= peers@);
    rest
}

/// The groups in which `peer` is not, and one of those in which it is.
fn split_groups(groups: Vec<Vec<PeerId>>, peer: PeerId) -> (out: (
    Vec<Vec<PeerId>>,
    Option<Vec<PeerId>>,
))
    ensures
        group_views(out.0@) == groups_without(group_views(groups@), peer),
        match out.1 {
            Some(group) => group_views(groups@).contains(group@) && group@.contains(peer),
            None => forall|g: Seq<PeerId>| #[trigger]
                group_views(groups@).contains(g) ==> !g.contains(peer),
        },
{
    let mut kept: Vec<Vec<PeerId>> = Vec::new();
    let mut found: Option<Vec<PeerId>> = None;
    let ghost mut done: Seq<Vec<PeerId>> = Seq::empty();
    assert(group_views(kept@) =~= groups_without(group_views(done), peer));
    for group in it: groups
        invariant
            done == it.seq().take(it.index() as int),
            group_views(kept@) == groups_without(group_views(done), peer),
            match found {
                Some(group) => group_views(done).contains(group@) && group@.contains(peer),
                None => forall|g: Seq<PeerId>| #[trigger]
                    group_views(done).contains(g) ==> !g.contains(peer),
            },
    {
        let ghost was = kept@;
        let ghost before = group_views(done);
        proof {
            lemma_group_pushed(done, group);
            assert(it.seq().take(it.index() + 1) =~= done.push(group));
            done = done.push(group);
        }
        if contains_peer(&group, peer) {
            assert(groups_without(before.insert(group@), peer) =~= groups_without(before, peer));
            found = Some(group);
        } else {
            proof {
                lemma_group_pushed(was, group);
                assert(groups_without(before.insert(group@), peer) =~= groups_without(
                    before,
                    peer,
                ).insert(group@));
            }
            kept.push(group);
        }
    }
    assert(groups@.take(groups@.len() as int) =~= groups@);
    (kept, found)
}

impl<S> ServerState<S> {
    /// The lists and maps are in order, and so is what they hold.
    pub closed spec fn wf(&self) -> bool {
        &&& self.clients_waiting.wf()
        &&& self.rooms.wf()
        &&& self@.valid()
    }

    /// Every state that the operations leave is a valid one.
    pub proof fn law_valid(&self)
        requires
            self.wf(),
        ensures
            self@.valid(),
    {
    }

    /// A server that nobody has come to.
    pub fn new() -> (state: Self)
        ensures
            state.wf(),
            state@.waiting == Map::<ClientAddr, RoomView>::empty(),
            state@.queued == Map::<PeerId, RoomView>::empty(),
            state@.clients == Map::<PeerId, PeerView<S>>::empty(),
            state@.rooms == Map::<RoomView, Set<PeerId>>::empty(),
            state@.matched == Set::<Seq<PeerId>>::empty(),
    {
        let state = ServerState {
            clients_waiting: AssocMap::new(),
            clients_in_queue: HashMap::new(),
            clients: HashMap::new(),
            rooms: AssocMap::new(),
            matched_by_next: Vec::new(),
        };
        assert(state@.waiting =~= Map::<ClientAddr, RoomView>::empty());
        assert(state@.queued =~= Map::<PeerId, RoomView>::empty());
        assert(state@.clients =~= Map::<PeerId, PeerView<S>>::empty());
        assert(state@.rooms =~= Map::<RoomView, Set<PeerId>>::empty());
        assert(state@.matched =~= Set::<Seq<PeerId>>::empty());
        state
    }

    /// Notes a connection that has asked for a room and has no identifier yet.
    pub fn add_waiting_client(&mut self, origin: ClientAddr, room: RequestedRoom)
        requires
            old(self).wf(),
        ensures
            final(self).wf(),
            final(self)@ == client_waits(old(self)@, origin, room@),
    {
        self.clients_waiting.insert(origin, room);
        assert(self@ =~= client_waits(old(self)@, origin, room@));
    }

    /// Whether a connection from there has asked for a room and has no identifier yet.
    pub fn is_waiting(&self, origin: &ClientAddr) -> (waiting: bool)
        requires
            self.wf(),
        ensures
            waiting == self@.waiting.contains_key(*origin),
    {
        self.clients_waiting.get(origin).is_some()
    }

    /// The room that a peer in the queue has asked for.
    pub fn queued_room(&self, peer_id: &PeerId) -> (room: Option<&RequestedRoom>)
        requires
            self.wf(),
        ensures
            match room {
                Some(room) => self@.queued.contains_key(*peer_id) && room@
                    == self@.queued[*peer_id],
                None => !self@.queued.contains_key(*peer_id),
            },
    {
        self.clients_in_queue.get(peer_id)
    }

    /// Gives a waiting connection its identifier.
    pub fn assign_id_to_waiting_client(&mut self, origin: ClientAddr, peer_id: PeerId)
        requires
            old(self).wf(),
            old(self)@.waiting.contains_key(origin),
        ensures
            final(self).wf(),
            final(self)@ == id_assigned(old(self)@, origin, peer_id),
    {
        if let Some(room) = self.clients_waiting.remove(&origin) {
            self.clients_in_queue.insert(peer_id, room);
        }
        assert(self@ =~= id_assigned(old(self)@, origin, peer_id));
    }

    /// Takes a peer out of the queue, with the room that it has asked for.
    pub fn remove_waiting_peer(&mut self, peer_id: PeerId) -> (room: RequestedRoom)
        requires
            old(self).wf(),
            old(self)@.queued.contains_key(peer_id),
        ensures
            final(self).wf(),
            room@ == old(self)@.queued[peer_id],
            final(self)@ == left_queue(old(self)@, peer_id),
    {
        let room = self.clients_in_queue.remove(&peer_id);
        assert(self@ =~= left_queue(old(self)@, peer_id));
        room.unwrap()
    }

    /// Puts a peer into its room and lists the peers that are already there, so that it can be
    /// made known to them. The room must not ask for groups of nobody.
    pub fn add_peer(&mut self, peer: Peer<S>) -> (prev: Vec<PeerId>)
        requires
            old(self).wf(),
            peer.room.next != Some(0usize),
        ensures
            final(self).wf(),
            peer_added(old(self)@, peer@, prev@, final(self)@),
            prev@.no_duplicates(),
            forall|p: PeerId| #[trigger]
                prev@.contains(p) <==> old(self)@.rooms.contains_key(peer.room@)
                    && old(self)@.rooms[peer.room@].contains(p),
            final(self)@.clients == old(self)@.clients.insert(peer.uuid, peer@),
            final(self)@.rooms.contains_key(peer.room@),
            final(self)@.rooms.remove(peer.room@) == old(self)@.rooms.remove(peer.room@),
            peer.room.next is None || prev@.len() + 1 != peer.room.next->0 ==> {
                &&& final(self)@.rooms[peer.room@] == prev@.to_set().insert(peer.uuid)
                &&& final(self)@.matched == old(self)@.matched
            },
            peer.room.next is Some && prev@.len() + 1 == peer.room.next->0 ==> {
                &&& final(self)@.rooms[peer.room@] == Set::<PeerId>::empty()
                &&& exists|group: Seq<PeerId>|
                    group.no_duplicates() && group.to_set() == prev@.to_set().insert(peer.uuid)
                        && #[trigger] old(self)@.matched.insert(group) == final(self)@.matched
            },
    {
        let ghost before = self@;
        let ghost view = peer@;
        let ghost groups = self.matched_by_next@;
        let peer_id = peer.uuid;
        let room = peer.room.clone();
        self.clients.insert(peer_id, peer);
        let mut members = match self.rooms.remove(&room) {
            Some(members) => members,
            None => HashSet::new(),
        };
        assert(members@ =~= before.members(room@));
        let prev = list_members(&members);
        let ghost met = members@;
        let complete = match room.next {
            Some(n) => members.len() == n - 1,
            None => false,
        };
        members.insert(peer_id);
        if complete {
            let group = list_members(&members);
            members.clear();
            let ghost listed = group@;
            self.matched_by_next.push(group);
            proof {
                lemma_group_pushed(groups, group);
                assert(lists_set(listed, met.insert(peer_id)));
            }
        }
        self.rooms.insert(room, members);
        proof {
            assert(self@.clients =~= before.clients.insert(peer_id, view));
            assert(self@.rooms =~= before.rooms.insert(room@, members@));
            assert(complete == completes_group(view.room, met));
            if complete {
                assert(members@ =~= Set::empty());
                assert(self@.rooms == before.rooms.insert(view.room, Set::empty()));
            } else {
                assert(self@.rooms == before.rooms.insert(view.room, met.insert(peer_id)));
            }
            assert(complete ==> group_formed(before.matched, met.insert(peer_id), self@.matched));
            assert(peer_added(before, view, prev@, self@));
            law_newcomer_joins(before, view, prev@, self@);
        }
        prev
    }

    /// Takes a peer out of the groups and lists the other members of its group.
    pub fn remove_matched_peer(&mut self, peer: PeerId) -> (rest: Vec<PeerId>)
        requires
            old(self).wf(),
        ensures
            final(self).wf(),
            matched_peer_removed(old(self)@.matched, peer, rest@, final(self)@.matched),
            final(self)@ == (ServerView { matched: final(self)@.matched, ..old(self)@ }),
            !rest@.contains(peer),
            forall|g: Seq<PeerId>| #[trigger]
                final(self)@.matched.contains(g) ==> !g.contains(peer),
            forall|g: Seq<PeerId>| #[trigger]
                old(self)@.matched.contains(g) && !g.contains(peer)
                    ==> final(self)@.matched.contains(g),
    {
        let ghost before = self@.matched;
        let mut groups: Vec<Vec<PeerId>> = Vec::new();
        std::mem::swap(&mut groups, &mut self.matched_by_next);
        let (kept, found) = split_groups(groups, peer);
        let rest = match &found {
            Some(group) => without_peer(group, peer),
            None => Vec::new(),
        };
        self.matched_by_next = kept;
        proof {
            if found is None {
                assert(groups_without(before, peer) =~= before);
            }
        }
        if rest.len() > 0 {
            let copy = rest.clone();
            assert(copy@ =~= rest@);
            self.matched_by_next.push(copy);
            proof {
                lemma_group_pushed(kept@, copy);
            }
        }
        proof {
            law_groups_lose_the_peer(before, peer, rest@, self@.matched);
        }
        rest
    }

    /// The connected peer of that identifier.
    pub fn get_peer(&self, peer_id: &PeerId) -> (peer: Option<&Peer<S>>)
        requires
            self.wf(),
        ensures
            match peer {
                Some(peer) => self@.clients.contains_key(*peer_id) && peer@
                    == self@.clients[*peer_id],
                None => !self@.clients.contains_key(*peer_id),
            },
    {
        self.clients.get(peer_id)
    }

    /// Lists the peers in a room.
    pub fn get_room_peers(&self, room: &RequestedRoom) -> (peers: Vec<PeerId>)
        requires
            self.wf(),
        ensures
            lists_set(peers@, self@.members(room@)),
            peers@.no_duplicates(),
            forall|p: PeerId| #[trigger]
                peers@.contains(p) <==> self@.rooms.contains_key(room@)
                    && self@.rooms[room@].contains(p),
    {
        match self.rooms.get(room) {
            Some(members) => {
                let list = list_members(members);
                proof {
                    law_listed(list@, self@.members(room@));
                }
                list
            },
            None => {
                let none: Vec<PeerId> = Vec::new();
                assert(none@.to_set() =~= Set::empty());
                none
            },
        }
    }

    /// Takes a peer out of the connected peers and out of its room.
    pub fn remove_peer(&mut self, peer_id: &PeerId) -> (peer: Option<Peer<S>>)
        requires
            old(self).wf(),
        ensures
            final(self).wf(),
            final(self)@ == peer_removed(old(self)@, *peer_id),
            match peer {
                Some(peer) => old(self)@.clients.contains_key(*peer_id) && peer@ == old(
                    self,
                )@.clients[*peer_id],
                None => !old(self)@.clients.contains_key(*peer_id),
            },
    {
        let ghost before = self@;
        match self.clients.remove(peer_id) {
            Some(peer) => {
                assert(self@.clients =~= before.clients.remove(*peer_id));
                match self.rooms.remove(&peer.room) {
                    Some(mut members) => {
                        let ghost met = members@;
                        members.remove(peer_id);
                        self.rooms.insert(peer.room.clone(), members);
                        assert(self@.rooms =~= before.rooms.insert(
                            peer.room@,
                            met.remove(*peer_id),
                        ));
                    },
                    None => {
                        assert(self@.rooms =~= before.rooms);
                    },
                }
                assert(self@ == peer_removed(before, *peer_id));
                Some(peer)
            },
            None => {
                assert(self@.clients =~= before.clients);
                None
            },
        }
    }

    /// The way to a connected peer.
    pub fn try_send(&self, id: PeerId) -> (sender: Result<&S, SignalingError>)
        requires
            self.wf(),
        ensures
            match sender {
                Ok(sender) => self@.clients.contains_key(id) && *sender == self@.clients[id].sender,
                Err(error) => !self@.clients.contains_key(id) && error
                    == SignalingError::UnknownPeer,
            },
    {
        match self.clients.get(&id) {
            Some(peer) => Ok(&peer.sender),
            None => Err(SignalingError::UnknownPeer),
        }
    }
}

proof fn lemma_group_pushed(groups: Seq<Vec<PeerId>>, group: Vec<PeerId>)
    ensures
        group_views(groups.push(group)) == group_views(groups).insert(group@),
{
    let all = groups.push(group);
    assert forall|g: Seq<PeerId>| group_views(all).contains(g) == group_views(groups).insert(
        group@,
    ).contains(g) by {
        if group_views(groups).contains(g) {
            let i = choose|i: int| 0 <= i < groups.len() && #[trigger] groups[i]@ == g;
            assert(all[i]@ == g);
        }
        if group_views(all).contains(g) {
            let i = choose|i: int| 0 <= i < all.len() && #[trigger] all[i]@ == g;
            if i < groups.len() {
                assert(groups[i]@ == g);
            }
        }
        assert(all[groups.len() as int]@ == group@);
    }
    assert(group_views(all) =~= group_views(groups).insert(group@));
}

/// Who is in a group without one of its members.
proof fn lemma_in_rest(list: Seq<PeerId>, peer: PeerId, p: PeerId)
    ensures
        group_without(list, peer).contains(p) == (list.contains(p) && p != peer),
{
    let rest = group_without(list, peer);
    if rest.contains(p) {
        list.lemma_filter_contains_rev(all_but(peer), p);
        let i = choose|i: int| 0 <= i < rest.len() && rest[i] == p;
        list.lemma_filter_pred(all_but(peer), i);
    }
    if list.contains(p) && p != peer {
        let i = choose|i: int| 0 <= i < list.len() && list[i] == p;
        list.lemma_filter_contains(all_but(peer), i);
    }
}

/// A list of a set holds each of its peers once, and nobody else.
pub proof fn law_listed(list: Seq<PeerId>, set: Set<PeerId>)
    ensures
        lists_set(list, set) <==> list.no_duplicates() && forall|p: PeerId| #[trigger]
            list.contains(p) <==> set.contains(p),
        lists_set(list, set) ==> list.len() == set.len(),
{
    if list.no_duplicates() && forall|p: PeerId| #[trigger]
        list.contains(p) <==> set.contains(p) {
        assert(list.to_set() =~= set);
    }
    if lists_set(list, set) {
        assert forall|p: PeerId| #[trigger] list.contains(p) <==> set.contains(p) by {
            assert(list.to_set().contains(p) == list.contains(p));
        }
        list.unique_seq_to_set();
    }
}

/// A state is valid exactly if every peer is filed under its own identifier, and every room is
/// finite and, where it puts groups together, smaller than a group.
pub proof fn law_validity<S>(state: ServerView<S>)
    ensures
        state.valid() <==> {
            &&& forall|id: PeerId| #[trigger]
                state.clients.contains_key(id) ==> state.clients[id].uuid == id
            &&& forall|room: RoomView| #[trigger]
                state.rooms.contains_key(room) ==> state.rooms[room].finite() && (
                room.next is Some ==> state.rooms[room].len() < room.next->0)
        },
        forall|room: RoomView, p: PeerId| #[trigger]
            state.members(room).contains(p) <==> state.rooms.contains_key(room)
                && state.rooms[room].contains(p),
{
}

/// A connection waits with the room that it asked for, then its identifier stands for it with that
/// room, then it is out of the queue; nobody else is moved.
pub proof fn law_queue<S>(
    before: ServerView<S>,
    origin: ClientAddr,
    room: RoomView,
    id: PeerId,
    other: ClientAddr,
    other_id: PeerId,
)
    ensures
        client_waits(before, origin, room).waiting.contains_key(origin),
        client_waits(before, origin, room).waiting[origin] == room,
        other != origin ==> client_waits(before, origin, room).waiting.contains_key(other)
            == before.waiting.contains_key(other) && client_waits(
            before,
            origin,
            room,
        ).waiting[other] == before.waiting[other],
        !id_assigned(before, origin, id).waiting.contains_key(origin),
        id_assigned(before, origin, id).queued.contains_key(id),
        id_assigned(before, origin, id).queued[id] == before.waiting[origin],
        other != origin ==> id_assigned(before, origin, id).waiting.contains_key(other)
            == before.waiting.contains_key(other),
        other_id != id ==> id_assigned(before, origin, id).queued.contains_key(other_id)
            == before.queued.contains_key(other_id) && id_assigned(
            before,
            origin,
            id,
        ).queued[other_id] == before.queued[other_id],
        !left_queue(before, id).queued.contains_key(id),
        other_id != id ==> left_queue(before, id).queued.contains_key(other_id)
            == before.queued.contains_key(other_id),
        client_waits(before, origin, room).queued == before.queued,
        left_queue(before, id).waiting == before.waiting,
{
}

/// A newcomer is connected as it is, meets exactly those who are in its room, and joins them; if
/// that makes as many as the room asks for, they leave the room as one group. Other rooms, other
/// peers and other groups stay as they are.
pub proof fn law_newcomer_joins<S>(
    before: ServerView<S>,
    peer: PeerView<S>,
    prev: Seq<PeerId>,
    after: ServerView<S>,
)
    requires
        peer_added(before, peer, prev, after),
    ensures
        prev.no_duplicates(),
        forall|p: PeerId| #[trigger]
            prev.contains(p) <==> before.rooms.contains_key(peer.room)
                && before.rooms[peer.room].contains(p),
        after.clients == before.clients.insert(peer.uuid, peer),
        after.rooms.contains_key(peer.room),
        after.rooms.remove(peer.room) == before.rooms.remove(peer.room),
        peer.room.next is None || prev.len() + 1 != peer.room.next->0
            ==> after.rooms[peer.room] == prev.to_set().insert(peer.uuid) && after.matched
            == before.matched,
        peer.room.next is Some && prev.len() + 1 == peer.room.next->0
            ==> after.rooms[peer.room] == Set::<PeerId>::empty() && exists|group: Seq<PeerId>|
            group.no_duplicates() && group.to_set() == prev.to_set().insert(peer.uuid)
                && #[trigger] before.matched.insert(group) == after.matched,
{
    let members = before.members(peer.room);
    law_listed(prev, members);
    assert forall|p: PeerId| #[trigger] prev.contains(p) <==> before.rooms.contains_key(peer.room)
        && before.rooms[peer.room].contains(p) by {
        assert(prev.contains(p) <==> members.contains(p));
    }
    assert(after.rooms.remove(peer.room) =~= before.rooms.remove(peer.room));
    if completes_group(peer.room, members) {
        let group = choose|group: Seq<PeerId>| #[trigger]
            lists_set(group, members.insert(peer.uuid)) && after.matched == before.matched.insert(
                group,
            );
        assert(before.matched.insert(group) == after.matched);
    }
}

/// A peer that leaves the groups is in none of them any more; the groups in which it was not stay;
/// the rest of its group is its group without it; and no other group comes up.
pub proof fn law_groups_lose_the_peer(
    before: Set<Seq<PeerId>>,
    peer: PeerId,
    rest: Seq<PeerId>,
    after: Set<Seq<PeerId>>,
)
    requires
        matched_peer_removed(before, peer, rest, after),
    ensures
        !rest.contains(peer),
        forall|g: Seq<PeerId>| #[trigger] after.contains(g) ==> !g.contains(peer),
        forall|g: Seq<PeerId>| #[trigger]
            before.contains(g) && !g.contains(peer) ==> after.contains(g),
        forall|g: Seq<PeerId>| #[trigger] after.contains(g) ==> before.contains(g) || g == rest,
        rest.len() > 0 ==> after.contains(rest) && exists|g: Seq<PeerId>| #[trigger]
            before.contains(g) && g.contains(peer) && forall|p: PeerId| #[trigger]
                rest.contains(p) <==> g.contains(p) && p != peer,
        (forall|g: Seq<PeerId>| #[trigger] before.contains(g) ==> !g.contains(peer))
            ==> rest.len() == 0 && after == before,
{
    if exists|group: Seq<PeerId>| #[trigger] before.contains(group) && group.contains(peer) {
        let g = choose|group: Seq<PeerId>| #[trigger]
            before.contains(group) && group.contains(peer) && rest == group_without(group, peer);
        assert forall|p: PeerId| #[trigger] rest.contains(p) <==> g.contains(p) && p != peer by {
            lemma_in_rest(g, peer, p);
        }
        assert(before.contains(g) && g.contains(peer));
    }
}

/// A peer that leaves is not connected and not in the room that it asked for; everyone else stays
/// connected and in every room.
pub proof fn law_peer_removed<S>(
    before: ServerView<S>,
    id: PeerId,
    other: PeerId,
    room: RoomView,
)
    ensures
        ({
            let after = peer_removed(before, id);
            &&& !after.clients.contains_key(id)
            &&& other != id ==> after.clients.contains_key(other) == before.clients.contains_key(
                other,
            ) && after.clients[other] == before.clients[other]
            &&& other != id ==> after.members(room).contains(other) == before.members(
                room,
            ).contains(other)
            &&& before.clients.contains_key(id) ==> !after.members(
                before.clients[id].room,
            ).contains(id)
            &&& after.matched == before.matched
            &&& after.waiting == before.waiting
            &&& after.queued == before.queued
        }),
{
}

} // verus!
