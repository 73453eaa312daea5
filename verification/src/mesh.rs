//! What holds of the signaling server whatever its peers do: who is together is made known to each
//! other, and whoever leaves is gone from everywhere.

use crate::peer::PeerId;
use crate::room::{ClientAddr, RoomView};
use crate::signaling::{
    all_but, client_waits, completes_group, group_formed, group_without, groups_without, id_assigned,
    left_queue, lists_set, matched_peer_removed, peer_added, peer_removed, PeerView, ServerView,
};
use crate::topology::{leaves_rest, lemma_list_without, lemma_without, peer_left};
use vstd::prelude::*;

verus! {

/// One step in the life of the server.
pub enum Step<S> {
    /// Connections wait, or get their identifiers.
    Queued,
    /// A peer comes, and `met` are told of it.
    Joined { peer: PeerView<S>, met: Seq<PeerId> },
    /// A peer goes, and `told` are told of it.
    Left { id: PeerId, told: Seq<PeerId> },
}

/// Whether `after` is what a step makes of `before`.
pub open spec fn follows<S>(before: ServerView<S>, step: Step<S>, after: ServerView<S>) -> bool {
    match step {
        Step::Queued => {
            &&& after.clients == before.clients
            &&& after.rooms == before.rooms
            &&& after.matched == before.matched
        },
        Step::Joined { peer, met } => peer_added(
            left_queue(before, peer.uuid),
            peer,
            met,
            after,
        ),
        Step::Left { id, told } => before.clients.contains_key(id) && peer_left(
            before,
            id,
            told,
            after,
        ),
    }
}

/// Whether the server has gone through these states by these steps, starting with nobody there.
pub open spec fn run<S>(states: Seq<ServerView<S>>, steps: Seq<Step<S>>) -> bool {
    &&& states.len() == steps.len() + 1
    &&& states[0].clients == Map::<PeerId, PeerView<S>>::empty()
    &&& states[0].rooms == Map::<RoomView, Set<PeerId>>::empty()
    &&& states[0].matched == Set::<Seq<PeerId>>::empty()
    &&& forall|k: int|
        0 <= k < steps.len() ==> follows(states[k], #[trigger] steps[k], states[k + 1])
}

/// Whether no peer comes under the identifier of one that is connected.
pub open spec fn fresh<S>(states: Seq<ServerView<S>>, steps: Seq<Step<S>>) -> bool {
    forall|k: int|
        0 <= k < steps.len() ==> match #[trigger] steps[k] {
            Step::Joined { peer, .. } => newcomer(states[k], peer),
            _ => true,
        }
}

/// Whether no connected peer has the identifier of `peer`.
pub open spec fn newcomer<S>(state: ServerView<S>, peer: PeerView<S>) -> bool {
    !state.clients.contains_key(peer.uuid)
}

/// Whether a step has `told` hear of `newcomer`.
pub open spec fn introduces<S>(step: Step<S>, told: PeerId, newcomer: PeerId) -> bool {
    match step {
        Step::Joined { peer, met } => peer.uuid == newcomer && met.contains(told),
        _ => false,
    }
}

/// Whether one of the two peers has been told of the other.
pub open spec fn introduced<S>(steps: Seq<Step<S>>, a: PeerId, b: PeerId) -> bool {
    exists|k: int|
        0 <= k < steps.len() && (introduces(#[trigger] steps[k], a, b) || introduces(
            steps[k],
            b,
            a,
        ))
}

/// Whether two peers are in one room.
pub open spec fn share_room<S>(state: ServerView<S>, a: PeerId, b: PeerId) -> bool {
    exists|room: RoomView| #[trigger]
        state.members(room).contains(a) && state.members(room).contains(b)
}

/// Whether two peers are in one group.
pub open spec fn share_group<S>(state: ServerView<S>, a: PeerId, b: PeerId) -> bool {
    exists|group: Seq<PeerId>| #[trigger]
        state.matched.contains(group) && group.contains(a) && group.contains(b)
}

/// Whether two peers are in one room or one group.
pub open spec fn together<S>(state: ServerView<S>, a: PeerId, b: PeerId) -> bool {
    share_room(state, a, b) || share_group(state, a, b)
}

/// Whoever is in a room is connected and has asked for that room.
pub open spec fn rooms_placed<S>(state: ServerView<S>) -> bool {
    forall|room: RoomView, p: PeerId| #[trigger]
        state.members(room).contains(p) ==> state.clients.contains_key(p)
            && state.clients[p].room == room
}

/// Whether `group` has members, none of them twice, all of them connected, in no room any more,
/// and of one mind on the room, which asks for groups that are no smaller.
pub open spec fn group_placed<S>(state: ServerView<S>, group: Seq<PeerId>) -> bool {
    &&& group.len() > 0
    &&& group.no_duplicates()
    &&& forall|p: PeerId| #[trigger]
        group.contains(p) ==> {
            &&& state.clients.contains_key(p)
            &&& state.clients[p].room == state.clients[group[0]].room
            &&& match state.clients[p].room.next {
                Some(n) => group.len() <= n,
                None => false,
            }
            &&& !state.members(state.clients[p].room).contains(p)
        }
}

/// Every group is in order, and no peer is in two of them.
pub open spec fn groups_placed<S>(state: ServerView<S>) -> bool {
    &&& forall|group: Seq<PeerId>| #[trigger]
        state.matched.contains(group) ==> group_placed(state, group)
    &&& forall|g: Seq<PeerId>, h: Seq<PeerId>, p: PeerId|
        #[trigger] state.matched.contains(g) && #[trigger] state.matched.contains(h)
            && #[trigger] g.contains(p) && h.contains(p) ==> g == h
}

/// Every connected peer is in its room or in a group.
pub open spec fn clients_placed<S>(state: ServerView<S>) -> bool {
    forall|p: PeerId| #[trigger] state.clients.contains_key(p) ==> together(state, p, p)
}

/// Every peer has its place: connected peers are in the room that they asked for or in one group,
/// and nobody else is in either.
pub open spec fn placed<S>(state: ServerView<S>) -> bool {
    &&& rooms_placed(state)
    &&& groups_placed(state)
    &&& clients_placed(state)
}

/// Where a group comes from that is there after a peer has left.
proof fn lemma_groups_after(
    before: Set<Seq<PeerId>>,
    peer: PeerId,
    rest: Seq<PeerId>,
    after: Set<Seq<PeerId>>,
    h: Seq<PeerId>,
) -> (g: Seq<PeerId>)
    requires
        matched_peer_removed(before, peer, rest, after),
        after.contains(h),
    ensures
        before.contains(g),
        h == group_without(g, peer),
        h == g || (g.contains(peer) && h == rest && rest.len() > 0),
{
    if groups_without(before, peer).contains(h) {
        lemma_untouched(h, peer);
        h
    } else if exists|group: Seq<PeerId>| #[trigger] before.contains(group) && group.contains(peer) {
        choose|group: Seq<PeerId>| #[trigger]
            before.contains(group) && group.contains(peer) && rest == group_without(group, peer)
    } else {
        assert(!h.contains(peer));
        lemma_untouched(h, peer);
        h
    }
}

proof fn lemma_untouched(group: Seq<PeerId>, peer: PeerId)
    requires
        !group.contains(peer),
    ensures
        group_without(group, peer) == group,
    decreases group.len(),
{
    reveal(Seq::filter);
    if group.len() > 0 {
        let before = group.drop_last();
        assert forall|i: int| 0 <= i < before.len() implies before[i] != peer by {
            assert(group.contains(group[i]));
        }
        lemma_untouched(before, peer);
        assert(group.contains(group[group.len() - 1]));
        assert(group_without(group, peer) =~= group);
    } else {
        assert(group_without(group, peer) =~= group);
    }
}

proof fn lemma_joined_pairs<S>(
    before: ServerView<S>,
    peer: PeerView<S>,
    met: Seq<PeerId>,
    after: ServerView<S>,
    a: PeerId,
    b: PeerId,
)
    requires
        peer_added(left_queue(before, peer.uuid), peer, met, after),
        together(after, a, b),
        a != b,
    ensures
        together(before, a, b) || introduces(Step::Joined { peer, met }, a, b) || introduces(
            Step::Joined { peer, met },
            b,
            a,
        ),
{
    let members = before.members(peer.room);
    let all = members.insert(peer.uuid);
    assert(left_queue(before, peer.uuid).members(peer.room) == members);
    assert(forall|p: PeerId| met.contains(p) == met.to_set().contains(p));
    if share_room(after, a, b) {
        let room = choose|room: RoomView| #[trigger]
            after.members(room).contains(a) && after.members(room).contains(b);
        if room == peer.room {
            assert(all.contains(a) && all.contains(b));
            assert(before.members(room).contains(a) == members.contains(a));
        } else {
            assert(after.members(room) == before.members(room));
            assert(share_room(before, a, b));
        }
    } else {
        let group = choose|group: Seq<PeerId>| #[trigger]
            after.matched.contains(group) && group.contains(a) && group.contains(b);
        if before.matched.contains(group) {
            assert(share_group(before, a, b));
        } else {
            assert(lists_set(group, all));
            assert(group.to_set().contains(a) && group.to_set().contains(b));
            assert(before.members(peer.room).contains(a) == members.contains(a));
        }
    }
}

proof fn lemma_left_pairs<S>(
    before: ServerView<S>,
    id: PeerId,
    told: Seq<PeerId>,
    after: ServerView<S>,
    a: PeerId,
    b: PeerId,
)
    requires
        before.clients.contains_key(id),
        peer_left(before, id, told, after),
        together(after, a, b),
    ensures
        together(before, a, b),
{
    let rest = choose|rest: Seq<PeerId>| #[trigger]
        leaves_rest(before, id, rest, told, after.matched);
    if share_room(after, a, b) {
        let room = choose|room: RoomView| #[trigger]
            after.members(room).contains(a) && after.members(room).contains(b);
        assert(before.members(room).contains(a) && before.members(room).contains(b));
    } else {
        let h = choose|group: Seq<PeerId>| #[trigger]
            after.matched.contains(group) && group.contains(a) && group.contains(b);
        let g = lemma_groups_after(before.matched, id, rest, after.matched, h);
        lemma_without(g, id, a);
        lemma_without(g, id, b);
        assert(share_group(before, a, b));
    }
}

/// Any two peers that are together, in one room or one group, have been introduced: one of them
/// has been told of the other. This holds after every run of the server.
pub proof fn law_full_mesh<S>(
    states: Seq<ServerView<S>>,
    steps: Seq<Step<S>>,
    a: PeerId,
    b: PeerId,
)
    requires
        run(states, steps),
        together(states.last(), a, b),
        a != b,
    ensures
        introduced(steps, a, b),
    decreases steps.len(),
{
    if steps.len() == 0 {
        assert(false) by {
            if share_room(states[0], a, b) {
                let room = choose|room: RoomView| #[trigger]
                    states[0].members(room).contains(a) && states[0].members(room).contains(b);
                assert(!states[0].members(room).contains(a));
            }
        }
    } else {
        let last = steps.len() - 1;
        let step = steps[last];
        let before = states[last];
        let after = states[last + 1];
        assert(follows(before, step, after));
        if introduces(step, a, b) || introduces(step, b, a) {
            assert(introduced(steps, a, b));
        } else {
            match step {
                Step::Queued => {
                    if share_room(after, a, b) {
                        let room = choose|room: RoomView| #[trigger]
                            after.members(room).contains(a) && after.members(room).contains(b);
                        assert(before.members(room).contains(a));
                        assert(share_room(before, a, b));
                    } else {
                        assert(share_group(before, a, b));
                    }
                },
                Step::Joined { peer, met } => {
                    lemma_joined_pairs(before, peer, met, after, a, b);
                },
                Step::Left { id, told } => {
                    lemma_left_pairs(before, id, told, after, a, b);
                },
            }
            let earlier_states = states.drop_last();
            let earlier = steps.drop_last();
            assert(run(earlier_states, earlier)) by {
                assert forall|k: int| 0 <= k < earlier.len() implies follows(
                    earlier_states[k],
                    #[trigger] earlier[k],
                    earlier_states[k + 1],
                ) by {
                    assert(follows(states[k], steps[k], states[k + 1]));
                }
            }
            law_full_mesh(earlier_states, earlier, a, b);
            let k = choose|k: int|
                0 <= k < earlier.len() && (introduces(#[trigger] earlier[k], a, b) || introduces(
                    earlier[k],
                    b,
                    a,
                ));
            assert(introduces(steps[k], a, b) || introduces(steps[k], b, a));
        }
    }
}

/// The group that a newcomer makes complete.
proof fn lemma_new_group<S>(
    before: ServerView<S>,
    peer: PeerView<S>,
    met: Seq<PeerId>,
    after: ServerView<S>,
) -> (group: Seq<PeerId>)
    requires
        before.valid(),
        placed(before),
        newcomer(before, peer),
        peer_added(left_queue(before, peer.uuid), peer, met, after),
        completes_group(peer.room, before.members(peer.room)),
    ensures
        lists_set(group, before.members(peer.room).insert(peer.uuid)),
        after.matched == before.matched.insert(group),
        group.len() == peer.room.next->0,
        group_placed(after, group),
{
    let members = before.members(peer.room);
    let all = members.insert(peer.uuid);
    assert(left_queue(before, peer.uuid).members(peer.room) == members);
    assert(group_formed(before.matched, all, after.matched));
    let group = choose|group: Seq<PeerId>| #[trigger]
        lists_set(group, all) && after.matched == before.matched.insert(group);
    assert(members.finite());
    assert(!members.contains(peer.uuid));
    group.unique_seq_to_set();
    assert(group.contains(group[0]));
    assert forall|p: PeerId| #[trigger] group.contains(p) implies {
        &&& after.clients.contains_key(p)
        &&& after.clients[p].room == peer.room
        &&& !after.members(after.clients[p].room).contains(p)
    } by {
        assert(group.to_set().contains(p));
        if p != peer.uuid {
            assert(before.members(peer.room).contains(p));
        }
    }
    group
}

/// Every peer still has its place after a newcomer has come.
pub proof fn law_joining_keeps_places<S>(
    before: ServerView<S>,
    peer: PeerView<S>,
    met: Seq<PeerId>,
    after: ServerView<S>,
)
    requires
        before.valid(),
        placed(before),
        newcomer(before, peer),
        peer_added(left_queue(before, peer.uuid), peer, met, after),
    ensures
        placed(after),
{
    let members = before.members(peer.room);
    let complete = completes_group(peer.room, members);
    assert(left_queue(before, peer.uuid).members(peer.room) == members);
    assert(rooms_placed(after)) by {
        assert forall|room: RoomView, p: PeerId| #[trigger]
            after.members(room).contains(p) implies after.clients.contains_key(p)
            && after.clients[p].room == room by {
            if p != peer.uuid {
                assert(before.members(room).contains(p));
            } else if room != peer.room {
                assert(before.members(room).contains(p));
            }
        }
    }
    assert forall|g: Seq<PeerId>| #[trigger] before.matched.contains(g) implies group_placed(
        after,
        g,
    ) by {
        assert(group_placed(before, g));
        assert(g.contains(g[0]));
        assert forall|p: PeerId| #[trigger] g.contains(p) implies p != peer.uuid && !after.members(
            after.clients[p].room,
        ).contains(p) by {
            assert(before.clients.contains_key(p));
            assert(!before.members(before.clients[p].room).contains(p));
        }
    }
    if complete {
        let group = lemma_new_group(before, peer, met, after);
        assert(groups_placed(after)) by {
            assert forall|g: Seq<PeerId>, h: Seq<PeerId>, p: PeerId|
                #[trigger] after.matched.contains(g) && #[trigger] after.matched.contains(h)
                    && #[trigger] g.contains(p) && h.contains(p) implies g == h by {
                if before.matched.contains(g) && !before.matched.contains(h) {
                    lemma_not_in_both(before, peer, group, g, p);
                }
                if before.matched.contains(h) && !before.matched.contains(g) {
                    lemma_not_in_both(before, peer, group, h, p);
                }
            }
        }
        assert(after.matched.contains(group));
        assert forall|p: PeerId| #[trigger] after.clients.contains_key(p) implies together(
            after,
            p,
            p,
        ) by {
            if group.to_set().contains(p) {
                assert(share_group(after, p, p));
            } else {
                assert(together(before, p, p));
                lemma_keeps_place(before, peer, met, after, p);
            }
        }
    } else {
        assert(groups_placed(after));
        assert forall|p: PeerId| #[trigger] after.clients.contains_key(p) implies together(
            after,
            p,
            p,
        ) by {
            if p == peer.uuid {
                assert(after.members(peer.room).contains(p));
                assert(share_room(after, p, p));
            } else {
                assert(together(before, p, p));
                lemma_keeps_place(before, peer, met, after, p);
            }
        }
    }
}

proof fn lemma_not_in_both<S>(
    before: ServerView<S>,
    peer: PeerView<S>,
    group: Seq<PeerId>,
    g: Seq<PeerId>,
    p: PeerId,
)
    requires
        placed(before),
        newcomer(before, peer),
        lists_set(group, before.members(peer.room).insert(peer.uuid)),
        before.matched.contains(g),
        g.contains(p),
    ensures
        !group.contains(p),
{
    assert(group_placed(before, g));
    assert(before.clients.contains_key(p));
    if group.contains(p) {
        assert(group.to_set().contains(p));
        assert(before.members(peer.room).contains(p));
    }
}

proof fn lemma_keeps_place<S>(
    before: ServerView<S>,
    peer: PeerView<S>,
    met: Seq<PeerId>,
    after: ServerView<S>,
    p: PeerId,
)
    requires
        peer_added(left_queue(before, peer.uuid), peer, met, after),
        together(before, p, p),
        completes_group(peer.room, before.members(peer.room)) ==> !before.members(
            peer.room,
        ).contains(p),
    ensures
        together(after, p, p),
{
    assert(left_queue(before, peer.uuid).members(peer.room) == before.members(peer.room));
    if share_room(before, p, p) {
        let room = choose|room: RoomView| #[trigger]
            before.members(room).contains(p) && before.members(room).contains(p);
        assert(after.members(room).contains(p));
        assert(share_room(after, p, p));
    } else {
        let g = choose|group: Seq<PeerId>| #[trigger]
            before.matched.contains(group) && group.contains(p) && group.contains(p);
        assert(after.matched.contains(g));
        assert(share_group(after, p, p));
    }
}

/// Every peer still has its place after a peer has left.
pub proof fn law_leaving_keeps_places<S>(
    before: ServerView<S>,
    id: PeerId,
    told: Seq<PeerId>,
    after: ServerView<S>,
)
    requires
        placed(before),
        before.clients.contains_key(id),
        peer_left(before, id, told, after),
    ensures
        placed(after),
{
    let rest = choose|rest: Seq<PeerId>| #[trigger]
        leaves_rest(before, id, rest, told, after.matched);
    assert(rooms_placed(after)) by {
        assert forall|room: RoomView, p: PeerId| #[trigger]
            after.members(room).contains(p) implies after.clients.contains_key(p)
            && after.clients[p].room == room by {
            assert(before.members(room).contains(p));
        }
    }
    assert forall|h: Seq<PeerId>| #[trigger] after.matched.contains(h) implies group_placed(
        after,
        h,
    ) by {
        let g = lemma_groups_after(before.matched, id, rest, after.matched, h);
        assert(group_placed(before, g));
        lemma_list_without(g, id);
        g.lemma_filter_len(all_but(id));
        assert forall|p: PeerId| #[trigger] h.contains(p) implies {
            &&& after.clients.contains_key(p)
            &&& after.clients[p] == before.clients[p]
            &&& g.contains(p)
            &&& !after.members(after.clients[p].room).contains(p)
        } by {
            lemma_without(g, id, p);
            assert(!before.members(before.clients[p].room).contains(p));
        }
        assert(h.contains(h[0]));
    }
    assert forall|g: Seq<PeerId>, h: Seq<PeerId>, p: PeerId|
        #[trigger] after.matched.contains(g) && #[trigger] after.matched.contains(h)
            && #[trigger] g.contains(p) && h.contains(p) implies g == h by {
        let g0 = lemma_groups_after(before.matched, id, rest, after.matched, g);
        let h0 = lemma_groups_after(before.matched, id, rest, after.matched, h);
        lemma_without(g0, id, p);
        lemma_without(h0, id, p);
    }
    assert forall|p: PeerId| #[trigger] after.clients.contains_key(p) implies together(
        after,
        p,
        p,
    ) by {
        assert(before.clients.contains_key(p));
        if share_room(before, p, p) {
            let room = choose|room: RoomView| #[trigger]
                before.members(room).contains(p) && before.members(room).contains(p);
            assert(after.members(room).contains(p));
            assert(share_room(after, p, p));
        } else {
            let g = choose|group: Seq<PeerId>| #[trigger]
                before.matched.contains(group) && group.contains(p) && group.contains(p);
            lemma_group_goes_on(before, id, told, after, rest, g, p);
            assert(share_group(after, p, p));
        }
    }
}

/// Those who stay in a group that a peer leaves are in a group.
proof fn lemma_group_goes_on<S>(
    before: ServerView<S>,
    id: PeerId,
    told: Seq<PeerId>,
    after: ServerView<S>,
    rest: Seq<PeerId>,
    g: Seq<PeerId>,
    p: PeerId,
)
    requires
        placed(before),
        leaves_rest(before, id, rest, told, after.matched),
        before.matched.contains(g),
        g.contains(p),
        p != id,
    ensures
        after.matched.contains(group_without(g, id)),
        group_without(g, id).contains(p),
        g.contains(id) ==> rest == group_without(g, id),
{
    lemma_without(g, id, p);
    if g.contains(id) {
        let g0 = choose|group: Seq<PeerId>| #[trigger]
            before.matched.contains(group) && group.contains(id) && rest == group_without(
                group,
                id,
            );
        assert(before.matched.contains(g0) && g0.contains(id));
        assert(g0 == g);
    } else {
        lemma_untouched(g, id);
        assert(groups_without(before.matched, id).contains(g));
    }
}

/// Every peer has its place after every run of the server.
pub proof fn law_places_kept<S>(states: Seq<ServerView<S>>, steps: Seq<Step<S>>)
    requires
        run(states, steps),
        fresh(states, steps),
        forall|k: int| 0 <= k < states.len() ==> (#[trigger] states[k]).valid(),
    ensures
        placed(states.last()),
    decreases steps.len(),
{
    if steps.len() > 0 {
        let last = steps.len() - 1;
        let before = states[last];
        let after = states[last + 1];
        let earlier_states = states.drop_last();
        let earlier = steps.drop_last();
        assert(run(earlier_states, earlier)) by {
            assert forall|k: int| 0 <= k < earlier.len() implies follows(
                earlier_states[k],
                #[trigger] earlier[k],
                earlier_states[k + 1],
            ) by {
                assert(follows(states[k], steps[k], states[k + 1]));
            }
        }
        assert(fresh(earlier_states, earlier)) by {
            assert forall|k: int| 0 <= k < earlier.len() implies match #[trigger] earlier[k] {
                Step::Joined { peer, .. } => newcomer(earlier_states[k], peer),
                _ => true,
            } by {
                assert(earlier[k] == steps[k]);
            }
        }
        law_places_kept(earlier_states, earlier);
        assert(follows(before, steps[last], after));
        match steps[last] {
            Step::Queued => {
                lemma_queue_keeps_places(before, after);
            },
            Step::Joined { peer, met } => {
                law_joining_keeps_places(before, peer, met, after);
            },
            Step::Left { id, told } => {
                law_leaving_keeps_places(before, id, told, after);
            },
        }
    }
}

proof fn lemma_queue_keeps_places<S>(before: ServerView<S>, after: ServerView<S>)
    requires
        placed(before),
        follows(before, Step::Queued, after),
    ensures
        placed(after),
{
    assert(forall|room: RoomView| after.members(room) == before.members(room));
    assert forall|g: Seq<PeerId>| #[trigger] after.matched.contains(g) implies group_placed(
        after,
        g,
    ) by {
        assert(group_placed(before, g));
    }
    assert forall|p: PeerId| #[trigger] after.clients.contains_key(p) implies together(
        after,
        p,
        p,
    ) by {
        assert(together(before, p, p));
        if share_room(before, p, p) {
            let room = choose|room: RoomView| #[trigger]
                before.members(room).contains(p) && before.members(room).contains(p);
            assert(after.members(room).contains(p));
        }
    }
}

/// The peers that are told of a newcomer are connected and have asked for the same room.
pub proof fn law_met_share_the_room<S>(
    before: ServerView<S>,
    peer: PeerView<S>,
    met: Seq<PeerId>,
    after: ServerView<S>,
    p: PeerId,
)
    requires
        placed(before),
        newcomer(before, peer),
        peer_added(left_queue(before, peer.uuid), peer, met, after),
        met.contains(p),
    ensures
        after.clients.contains_key(p),
        after.clients[p].room == peer.room,
        p != peer.uuid,
{
    assert(met.to_set().contains(p));
    assert(before.members(peer.room).contains(p));
}

/// A group has exactly the number of members that its room asks for when it is put together, and
/// leaves the room empty.
pub proof fn law_group_is_complete<S>(
    before: ServerView<S>,
    peer: PeerView<S>,
    met: Seq<PeerId>,
    after: ServerView<S>,
)
    requires
        before.valid(),
        placed(before),
        newcomer(before, peer),
        peer_added(left_queue(before, peer.uuid), peer, met, after),
        after.matched != before.matched,
    ensures
        peer.room.next is Some,
        after.members(peer.room) == Set::<PeerId>::empty(),
        exists|group: Seq<PeerId>| #[trigger]
            after.matched.contains(group) && group.contains(peer.uuid) && group.len()
                == peer.room.next->0 && group_without(group, peer.uuid).to_set() == met.to_set(),
{
    let members = before.members(peer.room);
    assert(left_queue(before, peer.uuid).members(peer.room) == members);
    let group = lemma_new_group(before, peer, met, after);
    assert(after.matched.contains(group));
    assert(group.to_set().contains(peer.uuid));
    lemma_list_without(group, peer.uuid);
    assert(!members.contains(peer.uuid));
    assert(group.to_set().remove(peer.uuid) =~= members);
    assert(group_without(group, peer.uuid).to_set() == met.to_set());
}

/// A peer that has left is not connected, and is in no room and in no group.
pub proof fn law_leaver_is_gone<S>(
    before: ServerView<S>,
    id: PeerId,
    told: Seq<PeerId>,
    after: ServerView<S>,
    p: PeerId,
)
    requires
        placed(before),
        before.clients.contains_key(id),
        peer_left(before, id, told, after),
    ensures
        !after.clients.contains_key(id),
        !together(after, id, p),
{
    law_leaving_keeps_places(before, id, told, after);
    if share_room(after, id, p) {
        let room = choose|room: RoomView| #[trigger]
            after.members(room).contains(id) && after.members(room).contains(p);
        assert(after.clients.contains_key(id));
    }
    if share_group(after, id, p) {
        let group = choose|group: Seq<PeerId>| #[trigger]
            after.matched.contains(group) && group.contains(id) && group.contains(p);
        assert(group_placed(after, group));
    }
}

/// Whether a peer is in a group that the others have left.
pub open spec fn alone_in_group<S>(state: ServerView<S>, id: PeerId) -> bool {
    share_group(state, id, id) && forall|p: PeerId| #[trigger]
        share_group(state, id, p) ==> p == id
}

/// When a peer leaves, everyone who is together with it is told, once, and is still connected to
/// hear it. Nobody is told of its own leaving, nor of that of a peer of another room.
pub proof fn law_companions_are_told<S>(
    before: ServerView<S>,
    id: PeerId,
    told: Seq<PeerId>,
    after: ServerView<S>,
    p: PeerId,
)
    requires
        placed(before),
        before.clients.contains_key(id),
        peer_left(before, id, told, after),
    ensures
        told.no_duplicates(),
        together(before, id, p) && p != id ==> told.contains(p),
        told.contains(p) ==> {
            &&& p != id
            &&& after.clients.contains_key(p)
            &&& after.clients[p].room == before.clients[id].room
        },
{
    let rest = choose|rest: Seq<PeerId>| #[trigger]
        leaves_rest(before, id, rest, told, after.matched);
    let room = before.clients[id].room;
    let left = peer_removed(before, id).members(room).remove(id);
    if rest.len() > 0 {
        let g = choose|group: Seq<PeerId>| #[trigger]
            before.matched.contains(group) && group.contains(id) && rest == group_without(
                group,
                id,
            );
        assert(group_placed(before, g));
        lemma_list_without(g, id);
        lemma_without(g, id, p);
        if together(before, id, p) && p != id {
            lemma_one_group(before, g, id, p);
        }
    } else {
        assert(told.to_set() == left);
        assert(told.contains(p) == left.contains(p));
        if told.contains(p) {
            assert(before.members(room).contains(p));
        }
        if together(before, id, p) && p != id {
            if share_group(before, id, p) {
                let g = choose|group: Seq<PeerId>| #[trigger]
                    before.matched.contains(group) && group.contains(id) && group.contains(p);
                lemma_group_goes_on(before, id, told, after, rest, g, p);
            } else {
                let r = choose|r: RoomView| #[trigger]
                    before.members(r).contains(id) && before.members(r).contains(p);
                assert(before.members(r).contains(p));
            }
        }
    }
}

/// Who is together with a member of a group is in that group.
proof fn lemma_one_group<S>(state: ServerView<S>, g: Seq<PeerId>, id: PeerId, p: PeerId)
    requires
        placed(state),
        state.matched.contains(g),
        g.contains(id),
        together(state, id, p),
    ensures
        g.contains(p),
{
    assert(group_placed(state, g));
    if share_room(state, id, p) {
        let room = choose|room: RoomView| #[trigger]
            state.members(room).contains(id) && state.members(room).contains(p);
        assert(state.clients[id].room == room);
    } else {
        let h = choose|group: Seq<PeerId>| #[trigger]
            state.matched.contains(group) && group.contains(id) && group.contains(p);
        assert(g == h);
    }
}

/// When a peer leaves that is not the last of its group, nobody is told but those who are together
/// with it.
pub proof fn law_only_companions_are_told<S>(
    before: ServerView<S>,
    id: PeerId,
    told: Seq<PeerId>,
    after: ServerView<S>,
    p: PeerId,
)
    requires
        placed(before),
        before.clients.contains_key(id),
        !alone_in_group(before, id),
        peer_left(before, id, told, after),
        told.contains(p),
    ensures
        together(before, id, p),
{
    let rest = choose|rest: Seq<PeerId>| #[trigger]
        leaves_rest(before, id, rest, told, after.matched);
    let room = before.clients[id].room;
    if rest.len() > 0 {
        let g = choose|group: Seq<PeerId>| #[trigger]
            before.matched.contains(group) && group.contains(id) && rest == group_without(
                group,
                id,
            );
        lemma_without(g, id, p);
        assert(share_group(before, id, p));
    } else {
        assert(told.to_set().contains(p));
        assert(before.members(room).contains(p));
        assert(together(before, id, id));
        if share_group(before, id, id) {
            let q = choose|q: PeerId| #[trigger] share_group(before, id, q) && q != id;
            let g = choose|group: Seq<PeerId>| #[trigger]
                before.matched.contains(group) && group.contains(id) && group.contains(q);
            lemma_group_goes_on(before, id, told, after, rest, g, q);
        }
        assert(share_room(before, id, id));
        let r = choose|r: RoomView| #[trigger]
            before.members(r).contains(id) && before.members(r).contains(id);
        assert(before.members(room).contains(id));
        assert(share_room(before, id, p));
    }
}

/// Any two connected peers that have asked for the same room, and for no groups, are together in
/// it and have been introduced to each other.
pub proof fn law_same_room_is_introduced<S>(
    states: Seq<ServerView<S>>,
    steps: Seq<Step<S>>,
    a: PeerId,
    b: PeerId,
)
    requires
        run(states, steps),
        fresh(states, steps),
        forall|k: int| 0 <= k < states.len() ==> (#[trigger] states[k]).valid(),
        states.last().clients.contains_key(a),
        states.last().clients.contains_key(b),
        states.last().clients[a].room == states.last().clients[b].room,
        states.last().clients[a].room.next is None,
        a != b,
    ensures
        share_room(states.last(), a, b),
        introduced(steps, a, b),
{
    law_places_kept(states, steps);
    let state = states.last();
    lemma_in_its_room(state, a);
    lemma_in_its_room(state, b);
    assert(share_room(state, a, b));
    law_full_mesh(states, steps, a, b);
}

/// A peer that has asked for no groups is in its room.
proof fn lemma_in_its_room<S>(state: ServerView<S>, p: PeerId)
    requires
        placed(state),
        state.clients.contains_key(p),
        state.clients[p].room.next is None,
    ensures
        state.members(state.clients[p].room).contains(p),
{
    assert(together(state, p, p));
    if share_room(state, p, p) {
        let room = choose|room: RoomView| #[trigger]
            state.members(room).contains(p) && state.members(room).contains(p);
        assert(state.clients[p].room == room);
    } else {
        let group = choose|group: Seq<PeerId>| #[trigger]
            state.matched.contains(group) && group.contains(p) && group.contains(p);
        assert(group_placed(state, group));
    }
}

/// A newcomer that makes no group complete and leaves again leaves everything as it was, and those
/// who were told of its coming are told of its going.
pub proof fn law_come_and_go<S>(
    before: ServerView<S>,
    peer: PeerView<S>,
    met: Seq<PeerId>,
    between: ServerView<S>,
    told: Seq<PeerId>,
    after: ServerView<S>,
    room: RoomView,
)
    requires
        before.valid(),
        placed(before),
        newcomer(before, peer),
        peer_added(left_queue(before, peer.uuid), peer, met, between),
        !completes_group(peer.room, before.members(peer.room)),
        peer_left(between, peer.uuid, told, after),
    ensures
        after.clients == before.clients,
        after.members(room) == before.members(room),
        after.matched == before.matched,
        told.to_set() == met.to_set(),
{
    let id = peer.uuid;
    let members = before.members(peer.room);
    assert(left_queue(before, id).members(peer.room) == members);
    assert(!members.contains(id));
    let rest = choose|rest: Seq<PeerId>| #[trigger]
        leaves_rest(between, id, rest, told, after.matched);
    assert(!exists|group: Seq<PeerId>| #[trigger]
        between.matched.contains(group) && group.contains(id)) by {
        if exists|group: Seq<PeerId>| #[trigger]
            between.matched.contains(group) && group.contains(id) {
            let g = choose|group: Seq<PeerId>| #[trigger]
                between.matched.contains(group) && group.contains(id);
            assert(before.matched.contains(g));
            assert(group_placed(before, g));
        }
    }
    assert(after.clients =~= before.clients);
    assert(members.insert(id).remove(id) =~= members);
    assert(peer_removed(between, id).members(peer.room) =~= members);
    assert(members.remove(id) =~= members);
}

/// A connection that asks for a room, gets an identifier and is taken in comes to the room that it
/// asked for; nothing is left of it where it waited.
pub proof fn law_room_is_kept<S>(
    before: ServerView<S>,
    origin: ClientAddr,
    room: RoomView,
    id: PeerId,
)
    ensures
        ({
            let waiting = client_waits(before, origin, room);
            let queued = id_assigned(waiting, origin, id);
            let taken = left_queue(queued, id);
            &&& waiting.waiting.contains_key(origin)
            &&& queued.queued.contains_key(id)
            &&& queued.queued[id] == room
            &&& !before.waiting.contains_key(origin) ==> taken.waiting == before.waiting
            &&& !before.queued.contains_key(id) ==> taken.queued == before.queued
            &&& taken.clients == before.clients
            &&& taken.rooms == before.rooms
            &&& taken.matched == before.matched
        }),
{
    let waiting = client_waits(before, origin, room);
    let queued = id_assigned(waiting, origin, id);
    let taken = left_queue(queued, id);
    if !before.waiting.contains_key(origin) {
        assert(taken.waiting =~= before.waiting);
    }
    if !before.queued.contains_key(id) {
        assert(taken.queued =~= before.queued);
    }
}

/// A newcomer is together with everyone whom it meets.
pub proof fn law_newcomer_is_with_those_it_meets<S>(
    before: ServerView<S>,
    peer: PeerView<S>,
    met: Seq<PeerId>,
    after: ServerView<S>,
    p: PeerId,
)
    requires
        peer_added(left_queue(before, peer.uuid), peer, met, after),
        met.contains(p),
    ensures
        together(after, peer.uuid, p),
        after.clients.contains_key(peer.uuid),
        after.clients[peer.uuid] == peer,
{
    let members = before.members(peer.room);
    assert(left_queue(before, peer.uuid).members(peer.room) == members);
    assert(met.to_set().contains(p));
    if completes_group(peer.room, members) {
        let group = choose|group: Seq<PeerId>| #[trigger]
            lists_set(group, members.insert(peer.uuid)) && after.matched == before.matched.insert(
                group,
            );
        assert(group.to_set().contains(p) && group.to_set().contains(peer.uuid));
        assert(after.matched.contains(group));
        assert(share_group(after, peer.uuid, p));
    } else {
        assert(after.members(peer.room).contains(p));
        assert(after.members(peer.room).contains(peer.uuid));
        assert(share_room(after, peer.uuid, p));
    }
}

/// A newcomer parts nobody and brings nobody else together: any two others are together after it
/// has come exactly if they were before, and they stay connected as they were.
pub proof fn law_joining_disturbs_nobody<S>(
    before: ServerView<S>,
    peer: PeerView<S>,
    met: Seq<PeerId>,
    after: ServerView<S>,
    a: PeerId,
    b: PeerId,
)
    requires
        peer_added(left_queue(before, peer.uuid), peer, met, after),
        a != peer.uuid,
        b != peer.uuid,
        a != b,
    ensures
        together(after, a, b) <==> together(before, a, b),
        after.clients.contains_key(a) == before.clients.contains_key(a),
        after.clients[a] == before.clients[a],
{
    let members = before.members(peer.room);
    assert(left_queue(before, peer.uuid).members(peer.room) == members);
    if together(after, a, b) {
        lemma_joined_pairs(before, peer, met, after, a, b);
    }
    if share_room(before, a, b) {
        let room = choose|room: RoomView| #[trigger]
            before.members(room).contains(a) && before.members(room).contains(b);
        if room == peer.room && completes_group(peer.room, members) {
            let group = choose|group: Seq<PeerId>| #[trigger]
                lists_set(group, members.insert(peer.uuid)) && after.matched
                    == before.matched.insert(group);
            assert(group.to_set().contains(a) && group.to_set().contains(b));
            assert(after.matched.contains(group));
            assert(share_group(after, a, b));
        } else {
            assert(after.members(room).contains(a) && after.members(room).contains(b));
            assert(share_room(after, a, b));
        }
    } else if share_group(before, a, b) {
        let group = choose|group: Seq<PeerId>| #[trigger]
            before.matched.contains(group) && group.contains(a) && group.contains(b);
        assert(after.matched.contains(group));
        assert(share_group(after, a, b));
    }
}

/// A peer that leaves parts nobody else: any two others are together after it has left exactly if
/// they were before, and they stay connected as they were.
pub proof fn law_leaving_disturbs_nobody<S>(
    before: ServerView<S>,
    id: PeerId,
    told: Seq<PeerId>,
    after: ServerView<S>,
    a: PeerId,
    b: PeerId,
)
    requires
        placed(before),
        before.clients.contains_key(id),
        peer_left(before, id, told, after),
        a != id,
        b != id,
    ensures
        together(after, a, b) <==> together(before, a, b),
        after.clients.contains_key(a) == before.clients.contains_key(a),
        after.clients[a] == before.clients[a],
        after.waiting == before.waiting,
        after.queued == before.queued,
{
    if together(after, a, b) {
        lemma_left_pairs(before, id, told, after, a, b);
    }
    let rest = choose|rest: Seq<PeerId>| #[trigger]
        leaves_rest(before, id, rest, told, after.matched);
    if share_room(before, a, b) {
        let room = choose|room: RoomView| #[trigger]
            before.members(room).contains(a) && before.members(room).contains(b);
        assert(after.members(room).contains(a) && after.members(room).contains(b));
        assert(share_room(after, a, b));
    } else if share_group(before, a, b) {
        let g = choose|group: Seq<PeerId>| #[trigger]
            before.matched.contains(group) && group.contains(a) && group.contains(b);
        lemma_group_goes_on(before, id, told, after, rest, g, a);
        lemma_group_goes_on(before, id, told, after, rest, g, b);
        assert(share_group(after, a, b));
    }
}

} // verus!
