use gopher_netplay::assoc::AssocMap;
use gopher_netplay::peer::PeerId;
use gopher_netplay::room::{parse_usize, requested_room, ClientAddr, RequestedRoom, RoomId};
use gopher_netplay::signal::{classify, parse_request, ClientRequestError, PeerRequest, SocketFrame};
use gopher_netplay::signaling::{without_peer, Peer, ServerState, SignalingError};
use gopher_netplay::topology::{connect, disconnect, handle_frame, relay, RelayStep};

const A: PeerId = 0x0123_4567_89ab_cdef_0123_4567_89ab_cdef;
const B: PeerId = 0xb;
const C: PeerId = 0xc;
const D: PeerId = 0xd;

fn room(id: &str, next: Option<usize>) -> RequestedRoom {
    RequestedRoom { id: RoomId(id.to_string()), next }
}

fn addr(n: u32) -> ClientAddr {
    ClientAddr::V4 { bits: n, port: 3536 }
}

fn join(state: &mut ServerState<&'static str>, id: PeerId, at: RequestedRoom) -> Vec<PeerId> {
    state.add_waiting_client(addr(1), at);
    state.assign_id_to_waiting_client(addr(1), id);
    let mut to = connect(state, id, "way").to;
    to.sort();
    to
}

fn leave(state: &mut ServerState<&'static str>, id: PeerId) -> Vec<PeerId> {
    let mut to = disconnect(state, id).unwrap().to;
    to.sort();
    to
}

fn members(state: &ServerState<&'static str>, at: &RequestedRoom) -> Vec<PeerId> {
    let mut peers = state.get_room_peers(at);
    peers.sort();
    peers
}

#[test]
fn a_newcomer_is_made_known_to_the_whole_room() {
    let mut state = ServerState::new();
    assert_eq!(join(&mut state, A, room("r", None)), vec![]);
    assert_eq!(join(&mut state, B, room("r", None)), vec![A]);
    assert_eq!(join(&mut state, C, room("s", None)), vec![]);
    assert_eq!(join(&mut state, D, room("r", None)), vec![B, A]);
    assert_eq!(members(&state, &room("r", None)), vec![B, D, A]);
}

#[test]
fn a_peer_that_leaves_is_gone_and_the_room_is_told() {
    let mut state = ServerState::new();
    join(&mut state, A, room("r", None));
    join(&mut state, B, room("r", None));
    join(&mut state, C, room("s", None));
    assert_eq!(leave(&mut state, A), vec![B]);
    assert!(state.get_peer(&A).is_none());
    assert_eq!(members(&state, &room("r", None)), vec![B]);
    assert!(disconnect(&mut state, A).is_none());
}

#[test]
fn coming_and_going_leaves_everything_as_it_was() {
    let mut state = ServerState::new();
    join(&mut state, A, room("r", None));
    let met = join(&mut state, B, room("r", None));
    assert_eq!(leave(&mut state, B), met);
    assert_eq!(members(&state, &room("r", None)), vec![A]);
    assert!(state.get_peer(&A).is_some() && state.get_peer(&B).is_none());
}

#[test]
fn everyone_in_a_room_has_been_introduced() {
    let mut state = ServerState::new();
    let mut introduced: Vec<(PeerId, PeerId)> = vec![];
    for id in 1..=20u128 {
        let at = if id % 3 == 0 { room("r", None) } else { room("s", Some(4)) };
        for told in join(&mut state, id, at) {
            introduced.push((told, id));
        }
        if id % 5 == 0 {
            leave(&mut state, id - 2);
            assert!(state.get_peer(&(id - 2)).is_none());
        }
        for at in [room("r", None), room("s", Some(4))] {
            let here = members(&state, &at);
            for a in here.iter() {
                assert!(state.get_peer(a).is_some());
                for b in here.iter().filter(|b| *b != a) {
                    assert!(introduced.contains(&(*a, *b)) || introduced.contains(&(*b, *a)));
                }
            }
        }
    }
    assert!(members(&state, &room("s", Some(4))).len() < 4);
}

#[test]
fn comings_and_goings_are_worded_in_json() {
    let mut state = ServerState::new();
    state.add_waiting_client(addr(1), room("r", None));
    state.assign_id_to_waiting_client(addr(1), A);
    let coming = connect(&mut state, A, "way");
    assert_eq!(coming.text, "{\"NewPeer\":\"01234567-89ab-cdef-0123-456789abcdef\"}");
    let going = disconnect(&mut state, A).unwrap();
    assert_eq!(going.text, "{\"PeerLeft\":\"01234567-89ab-cdef-0123-456789abcdef\"}");
}

#[test]
fn groups_are_put_together_by_number() {
    let mut state = ServerState::new();
    let pair = || room("r", Some(2));
    assert_eq!(join(&mut state, A, pair()), vec![]);
    assert_eq!(join(&mut state, B, pair()), vec![A]);
    assert_eq!(members(&state, &pair()), vec![]);
    assert_eq!(join(&mut state, C, pair()), vec![]);
    assert_eq!(members(&state, &pair()), vec![C]);
    assert_eq!(leave(&mut state, A), vec![B]);
    assert!(members(&state, &room("r", None)).is_empty());
}

#[test]
fn a_group_shrinks_as_its_members_leave() {
    let mut state = ServerState::new();
    let three = || room("r", Some(3));
    join(&mut state, A, three());
    join(&mut state, B, three());
    assert_eq!(join(&mut state, C, three()), vec![B, A]);
    assert_eq!(leave(&mut state, B), vec![C, A]);
    assert_eq!(leave(&mut state, A), vec![C]);
    assert_eq!(leave(&mut state, C), vec![]);
    assert_eq!(state.remove_matched_peer(C), vec![]);
}

#[test]
fn the_last_of_a_group_takes_leave_of_its_room() {
    let mut state = ServerState::new();
    let pair = || room("r", Some(2));
    join(&mut state, A, pair());
    join(&mut state, B, pair());
    join(&mut state, C, pair());
    assert_eq!(leave(&mut state, B), vec![A]);
    assert_eq!(leave(&mut state, A), vec![C]);
}

#[test]
fn a_group_of_one_is_complete_at_once() {
    let mut state = ServerState::new();
    assert_eq!(join(&mut state, A, room("r", Some(1))), vec![]);
    assert!(members(&state, &room("r", Some(1))).is_empty());
    assert_eq!(join(&mut state, B, room("r", Some(1))), vec![]);
}

#[test]
fn a_connection_gets_the_room_that_it_asked_for() {
    let mut state: ServerState<u8> = ServerState::new();
    let other = ClientAddr::V6 { wide_bits: 7, port: 1, flowinfo: 0, scope_id: 0 };
    state.add_waiting_client(addr(1), room("first", None));
    state.add_waiting_client(other, room("second", Some(4)));
    assert!(state.is_waiting(&other) && !state.is_waiting(&addr(2)));
    assert!(state.queued_room(&B).is_none());
    state.assign_id_to_waiting_client(other, B);
    state.assign_id_to_waiting_client(addr(1), A);
    assert!(!state.is_waiting(&other));
    assert_eq!(state.queued_room(&B).unwrap().id.0, "second");
    let second = state.remove_waiting_peer(B);
    assert_eq!((second.id.0.as_str(), second.next), ("second", Some(4)));
    assert_eq!(state.remove_waiting_peer(A).id.0, "first");
}

#[test]
fn a_connection_may_change_its_mind() {
    let mut state: ServerState<u8> = ServerState::new();
    state.add_waiting_client(addr(1), room("first", None));
    state.add_waiting_client(addr(1), room("second", None));
    state.assign_id_to_waiting_client(addr(1), A);
    assert_eq!(state.remove_waiting_peer(A).id.0, "second");
}

#[test]
fn peers_are_found_by_their_identifier() {
    let mut state: ServerState<u8> = ServerState::new();
    assert!(state.add_peer(Peer { uuid: A, room: room("r", None), sender: 1 }).is_empty());
    assert_eq!(state.add_peer(Peer { uuid: B, room: room("r", None), sender: 2 }), vec![A]);
    assert_eq!(state.try_send(B), Ok(&2));
    assert_eq!(state.try_send(C), Err(SignalingError::UnknownPeer));
    assert_eq!(state.get_peer(&A).unwrap().sender, 1);
    let removed = state.remove_peer(&A).unwrap();
    assert_eq!((removed.uuid, removed.room.id.0.as_str(), removed.sender), (A, "r", 1));
    assert!(state.remove_peer(&A).is_none());
    assert_eq!(state.get_room_peers(&room("r", None)), vec![B]);
}

#[test]
fn rooms_with_and_without_a_number_are_different_rooms() {
    let mut state = ServerState::new();
    join(&mut state, A, room("r", None));
    assert_eq!(join(&mut state, B, room("r", Some(9))), vec![]);
    assert_eq!(join(&mut state, C, room("r", Some(8))), vec![]);
    assert_eq!(join(&mut state, D, room("R", None)), vec![]);
}

#[test]
fn a_list_without_a_peer() {
    assert_eq!(without_peer(&vec![A, B, A, C], A), vec![B, C]);
    assert_eq!(without_peer(&vec![B], A), vec![B]);
}

fn text(content: &str) -> SocketFrame {
    SocketFrame::Text(content.to_string())
}

#[test]
fn signals_are_passed_on() {
    let mut state = ServerState::new();
    state.add_peer(Peer { uuid: B, room: room("r", None), sender: "to b" });
    let frame = text(
        "{\"Signal\":{\"receiver\":\"00000000-0000-0000-0000-00000000000b\",\"data\":{\"x\": [1, null]}}}",
    );
    match handle_frame(&state, A, &frame) {
        RelayStep::Relay { sender, text } => {
            assert_eq!(*sender, "to b");
            assert_eq!(
                text,
                "{\"Signal\":{\"sender\":\"01234567-89ab-cdef-0123-456789abcdef\",\"data\":{\"x\":[1,null]}}}"
            );
        }
        _ => panic!("not passed on"),
    }
}

#[test]
fn signals_to_strangers_are_lost() {
    let state: ServerState<u8> = ServerState::new();
    let data: serde_json::Value = serde_json::from_str("true").unwrap();
    let request = Ok(PeerRequest::Signal { receiver: B, data });
    assert!(matches!(relay(&state, A, request), RelayStep::Ignore));
}

#[test]
fn signs_of_life_are_passed_over() {
    let state: ServerState<u8> = ServerState::new();
    assert!(matches!(handle_frame(&state, A, &text("\"KeepAlive\"")), RelayStep::Ignore));
}

#[test]
fn a_bad_request_does_not_end_the_connection() {
    let state: ServerState<u8> = ServerState::new();
    assert!(matches!(
        handle_frame(&state, A, &text("{\"Signal\":{}}")),
        RelayStep::BadRequest(ClientRequestError::Json)
    ));
    assert!(matches!(
        handle_frame(&state, A, &SocketFrame::Other),
        RelayStep::BadRequest(ClientRequestError::UnsupportedType)
    ));
}

#[test]
fn a_closed_or_broken_connection_is_over() {
    let state: ServerState<u8> = ServerState::new();
    assert!(matches!(handle_frame(&state, A, &SocketFrame::Close), RelayStep::HangUp));
    assert!(matches!(handle_frame(&state, A, &SocketFrame::Failed), RelayStep::HangUp));
}

#[test]
fn requests_are_read_from_json() {
    let frame = text("{\"Signal\":{\"receiver\":\"01234567-89ab-cdef-0123-456789abcdef\",\"data\":7}}");
    match parse_request(&frame) {
        Ok(PeerRequest::Signal { receiver, data }) => {
            assert_eq!(receiver, A);
            assert_eq!(data.as_u64(), Some(7));
        }
        _ => panic!("no signal"),
    }
    assert!(matches!(parse_request(&text("\"KeepAlive\"")), Ok(PeerRequest::KeepAlive)));
    assert!(matches!(parse_request(&text("KeepAlive")), Err(ClientRequestError::Json)));
    assert!(matches!(parse_request(&text("")), Err(ClientRequestError::Json)));
    assert!(matches!(
        parse_request(&SocketFrame::Other),
        Err(ClientRequestError::UnsupportedType)
    ));
    assert!(matches!(parse_request(&SocketFrame::Close), Err(ClientRequestError::Close)));
    assert!(matches!(parse_request(&SocketFrame::Failed), Err(ClientRequestError::Axum)));
}

#[test]
fn frames_are_classified_by_what_their_text_makes() {
    assert!(matches!(
        classify(&text("x"), Some(PeerRequest::KeepAlive)),
        Ok(PeerRequest::KeepAlive)
    ));
    assert!(matches!(classify(&text("x"), None), Err(ClientRequestError::Json)));
    assert!(matches!(classify(&SocketFrame::Close, None), Err(ClientRequestError::Close)));
}

#[test]
fn a_room_is_named_by_path_and_number() {
    let asked = requested_room(Some("gauntlet".to_string()), Some("4".to_string()));
    assert_eq!((asked.id.0.as_str(), asked.next), ("gauntlet", Some(4)));
    let asked = requested_room(None, None);
    assert_eq!((asked.id.0.as_str(), asked.next), ("", None));
    let asked = requested_room(Some("x".to_string()), Some("four".to_string()));
    assert_eq!(asked.next, None);
}

#[test]
fn numbers_are_read_as_std_reads_them() {
    let texts = [
        "0", "7", "+7", "-7", "", "+", "++1", "007", " 7", "7 ", "1e3", "1_0", "\u{661}",
        "18446744073709551615", "18446744073709551616", "99999999999999999999999",
        "00000000000000000000000000000001",
    ];
    for text in texts {
        assert_eq!(parse_usize(text), text.parse::<usize>().ok());
    }
}

#[test]
fn a_map_with_keys_compared_one_by_one() {
    let mut map: AssocMap<ClientAddr, u8> = AssocMap::new();
    assert!(map.get(&addr(1)).is_none());
    map.insert(addr(1), 10);
    map.insert(addr(2), 20);
    map.insert(addr(1), 11);
    assert_eq!(map.get(&addr(1)), Some(&11));
    assert_eq!(map.remove(&addr(1)), Some(11));
    assert_eq!(map.remove(&addr(1)), None);
    assert_eq!(map.get(&addr(2)), Some(&20));
    let wide = ClientAddr::V6 { wide_bits: 2, port: 3536, flowinfo: 0, scope_id: 0 };
    assert!(map.get(&wide).is_none());
}
