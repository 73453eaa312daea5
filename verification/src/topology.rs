//! The life of a connection to the signaling server: every peer of a room is made known to every
//! other.

use crate::peer::PeerId;
use crate::signal::{
    event_text, event_wording, frame_request, json_text, law_event_tells_who, parse_request,
    request_of,
    ClientRequestError, PeerEvent, PeerRequest, SocketFrame,
};
use crate::signaling::{
    all_but, group_without, left_queue, lists_set, matched_peer_removed, peer_added, peer_removed,
    without_peer, Peer, PeerView, ServerState, ServerView,
};
use vstd::prelude::*;

verus! {

/// A text for several peers.
pub struct Broadcast {
    pub text: String,
    pub to: Vec<PeerId>,
}

/// What a frame of a peer leads to.
pub enum RelayStep<'a, S> {
    /// Pass the text on.
    Relay { sender: &'a S, text: String },
    /// Do nothing.
    Ignore,
    /// Complain of a request that cannot be read, and go on.
    BadRequest(ClientRequestError),
    /// The connection is over.
    HangUp,
}

/// Whether `step` is what a request of `peer_id` leads to. A signal goes to its receiver, if that
/// is connected, and is lost otherwise.
pub open spec fn relayed<S>(
    state: ServerView<S>,
    peer_id: PeerId,
    request: Result<PeerRequest, ClientRequestError>,
    step: RelayStep<S>,
) -> bool {
    match request {
        Ok(PeerRequest::Signal { receiver, data }) => if state.clients.contains_key(receiver) {
            &&& step is Relay
            &&& *step->sender == state.clients[receiver].sender
            &&& step->text@ == event_wording(
                PeerEvent::Signal { sender: peer_id, data },
                json_text(data),
            )
        } else {
            step is Ignore
        },
        Ok(PeerRequest::KeepAlive) => step is Ignore,
        Err(ClientRequestError::Axum) | Err(ClientRequestError::Close) => step is HangUp,
        Err(error) => step == RelayStep::<S>::BadRequest(error),
    }
}

/// Whether `to` are the peers that are told when `id` leaves, and `matched` the groups after that,
/// where `rest` is what is left of its group: the rest of the group is told, if there is one, or
/// else the peers that `id` leaves in its room.
pub open spec fn leaves_rest<S>(
    before: ServerView<S>,
    id: PeerId,
    rest: Seq<PeerId>,
    to: Seq<PeerId>,
    matched: Set<Seq<PeerId>>,
) -> bool {
    &&& matched_peer_removed(before.matched, id, rest, matched)
    &&& if rest.len() > 0 {
        to == rest
    } else {
        lists_set(to, peer_removed(before, id).members(before.clients[id].room).remove(id))
    }
}

/// Whether `after` is what the leaving of the connected peer `id` makes of `before`, and `to` are
/// the peers that are told.
pub open spec fn peer_left<S>(
    before: ServerView<S>,
    id: PeerId,
    to: Seq<PeerId>,
    after: ServerView<S>,
) -> bool {
    &&& after == (ServerView { matched: after.matched, ..peer_removed(before, id) })
    &&& exists|rest: Seq<PeerId>| #[trigger] leaves_rest(before, id, rest, to, after.matched)
}

/// Who is in a list without one of its peers.
pub proof fn lemma_without(list: Seq<PeerId>, peer: PeerId, p: PeerId)
    ensures
        group_without(list, peer).contains(p) == (list.contains(p) && p != peer),
{
    let rest = group_without(list, peer);
    if rest.contains(p) {
        list.lemma_filter_contains_rev(all_but(peer), p);
        let i = choose|i: int| 0 <= i < rest.len() && rest[i] == p;
        list.lemma_filter_pred(all_but(peer), i);
    }
    if list.contains(p) && p != peer {
        let i = choose|i: int| 0 <= i < list.len() && list[i] == p;
        list.lemma_filter_contains(all_but(peer), i);
    }
}

/// A list without one of its peers lists the set without that peer.
pub proof fn lemma_list_without(list: Seq<PeerId>, peer: PeerId)
    requires
        list.no_duplicates(),
    ensures
        lists_set(group_without(list, peer), list.to_set().remove(peer)),
    decreases list.len(),
{
    let kept = group_without(list, peer);
    if list.len() > 0 {
        reveal(Seq::filter);
        let before = list.drop_last();
        let kept_before = group_without(before, peer);
        lemma_list_without(before, peer);
        if list.last() != peer {
            lemma_without(before, peer, list.last());
            assert(kept =~= kept_before.push(list.last()));
            assert forall|i: int, j: int|
                0 <= i < kept.len() && 0 <= j < kept.len() && i != j implies kept[i] != kept[j] by {
                if i < kept_before.len() {
                    assert(kept_before.contains(kept_before[i]));
                }
                if j < kept_before.len() {
                    assert(kept_before.contains(kept_before[j]));
                }
            }
        }
    } else {
        reveal(Seq::filter);
    }
    assert forall|p: PeerId| kept.contains(p) == (list.contains(p) && p != peer) by {
        lemma_without(list, peer, p);
    }
    assert(kept.to_set() =~= list.to_set().remove(peer));
}

/// Takes a peer in: it leaves the queue for its room, and the peers that are there are told.
pub fn connect<S>(state: &mut ServerState<S>, peer_id: PeerId, sender: S) -> (out: Broadcast)
    requires
        old(state).wf(),
        old(state)@.queued.contains_key(peer_id),
        old(state)@.queued[peer_id].next != Some(0usize),
    ensures
        final(state).wf(),
        peer_added(
            left_queue(old(state)@, peer_id),
            PeerView { uuid: peer_id, room: old(state)@.queued[peer_id], sender },
            out.to@,
            final(state)@,
        ),
        out.text@ == event_wording(PeerEvent::NewPeer(peer_id), Seq::empty()),
{
    let room = state.remove_waiting_peer(peer_id);
    let to = state.add_peer(Peer { uuid: peer_id, room, sender });
    Broadcast { text: event_text(PeerEvent::NewPeer(peer_id)), to }
}

/// Follows a request of a peer.
pub fn relay<'a, S>(
    state: &'a ServerState<S>,
    peer_id: PeerId,
    request: Result<PeerRequest, ClientRequestError>,
) -> (step: RelayStep<'a, S>)
    requires
        state.wf(),
    ensures
        relayed(state@, peer_id, request, step),
        request matches Ok(PeerRequest::Signal { receiver, data }) ==> {
            &&& step is Relay <==> state@.clients.contains_key(receiver)
            &&& step is Ignore <==> !state@.clients.contains_key(receiver)
            &&& step is Relay ==> *step->sender == state@.clients[receiver].sender && step->text@
                == event_wording(PeerEvent::Signal { sender: peer_id, data }, json_text(data))
        },
        request matches Ok(PeerRequest::KeepAlive) ==> step is Ignore,
        step is HangUp <==> request == Err::<PeerRequest, _>(ClientRequestError::Axum) || request
            == Err::<PeerRequest, _>(ClientRequestError::Close),
        step is BadRequest <==> request == Err::<PeerRequest, _>(ClientRequestError::Json)
            || request == Err::<PeerRequest, _>(ClientRequestError::UnsupportedType),
{
    match request {
        Ok(PeerRequest::Signal { receiver, data }) => {
            let text = event_text(PeerEvent::Signal { sender: peer_id, data });
            match state.get_peer(&receiver) {
                Some(peer) => RelayStep::Relay { sender: &peer.sender, text },
                None => RelayStep::Ignore,
            }
        },
        Ok(PeerRequest::KeepAlive) => RelayStep::Ignore,
        Err(ClientRequestError::Axum) | Err(ClientRequestError::Close) => RelayStep::HangUp,
        Err(error) => RelayStep::BadRequest(error),
    }
}

/// Follows what comes over the websocket of a peer.
pub fn handle_frame<'a, S>(
    state: &'a ServerState<S>,
    peer_id: PeerId,
    frame: &SocketFrame,
) -> (step: RelayStep<'a, S>)
    requires
        state.wf(),
    ensures
        relayed(state@, peer_id, request_of(*frame, frame_request(*frame)), step),
{
    relay(state, peer_id, parse_request(frame))
}

/// Lets a peer go: it is taken out of the state, and those that were with it are told. A peer that
/// is not connected is passed over.
pub fn disconnect<S>(state: &mut ServerState<S>, peer_id: PeerId) -> (out: Option<Broadcast>)
    requires
        old(state).wf(),
    ensures
        final(state).wf(),
        !old(state)@.clients.contains_key(peer_id) ==> out is None && final(state)@ == old(state)@,
        old(state)@.clients.contains_key(peer_id) ==> {
            &&& out is Some
            &&& peer_left(old(state)@, peer_id, out->0.to@, final(state)@)
            &&& out->0.text@ == event_wording(PeerEvent::PeerLeft(peer_id), Seq::empty())
        },
{
    proof {
        state.law_valid();
    }
    match state.remove_peer(&peer_id) {
        None => None,
        Some(removed) => {
            let text = event_text(PeerEvent::PeerLeft(removed.uuid));
            let matched = state.remove_matched_peer(peer_id);
            let ghost rest = matched@;
            let to = if matched.len() > 0 {
                matched
            } else {
                let mates = state.get_room_peers(&removed.room);
                proof {
                    lemma_list_without(mates@, peer_id);
                }
                without_peer(&mates, peer_id)
            };
            assert(leaves_rest(old(state)@, peer_id, rest, to@, state@.matched));
            Some(Broadcast { text, to })
        },
    }
}

/// A signal reaches every connected peer, whoever sends it: it goes to the receiver's own way and
/// names its sender. It is lost only if its receiver is not connected.
pub proof fn law_signal_reaches_its_receiver<S>(
    state: ServerView<S>,
    from: PeerId,
    to: PeerId,
    data: serde_json::Value,
    step: RelayStep<S>,
)
    requires
        relayed(state, from, Ok(PeerRequest::Signal { receiver: to, data }), step),
    ensures
        step is Relay <==> state.clients.contains_key(to),
        step is Ignore <==> !state.clients.contains_key(to),
        state.clients.contains_key(to) ==> *step->sender == state.clients[to].sender && step->text@
            == event_wording(PeerEvent::Signal { sender: from, data }, json_text(data)),
{
}

/// Any two connected peers can reach each other, in both directions.
pub proof fn law_peers_reach_each_other<S>(
    state: ServerView<S>,
    a: PeerId,
    b: PeerId,
    data: serde_json::Value,
    forth: RelayStep<S>,
    back: RelayStep<S>,
)
    requires
        state.clients.contains_key(a),
        state.clients.contains_key(b),
        relayed(state, a, Ok(PeerRequest::Signal { receiver: b, data }), forth),
        relayed(state, b, Ok(PeerRequest::Signal { receiver: a, data }), back),
    ensures
        forth is Relay,
        *forth->sender == state.clients[b].sender,
        back is Relay,
        *back->sender == state.clients[a].sender,
        forth->text@ == back->text@ ==> a == b,
{
    if forth->text@ == back->text@ {
        law_event_tells_who(a, b, data, json_text(data));
    }
}

/// Signs of life and bad requests change nothing, and only a closed or broken connection is over.
pub proof fn law_connection_goes_on<S>(
    state: ServerView<S>,
    from: PeerId,
    request: Result<PeerRequest, ClientRequestError>,
    step: RelayStep<S>,
)
    requires
        relayed(state, from, request, step),
    ensures
        step is HangUp <==> request == Err::<PeerRequest, _>(ClientRequestError::Axum) || request
            == Err::<PeerRequest, _>(ClientRequestError::Close),
        step is BadRequest <==> request == Err::<PeerRequest, _>(ClientRequestError::Json)
            || request == Err::<PeerRequest, _>(ClientRequestError::UnsupportedType),
        request == Ok::<_, ClientRequestError>(PeerRequest::KeepAlive) ==> step is Ignore,
{
}

} // verus!
