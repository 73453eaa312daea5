use gopher_netplay::config::{NetplayConfig, RtcIceServerConfig};
use gopher_netplay::handshake::{
    begin_round, end_round, init, socket_plan, start_timed_out, still_connecting, ChannelKind,
    PeerState, PlayerType, RoundEnd, SessionPlan, MESSAGE_CHANNEL, SESSION_CHANNEL,
};
use gopher_netplay::netplay::{contains_slot, Netplay};
use gopher_netplay::notice::Notice;
use gopher_netplay::peer::{contains_peer, PeerId};
use gopher_netplay::slots::{
    entries, forget_peers, get_player_numbers, own_slots, send_player_number, slots_below,
    verify_peers, PlayerNumbers,
};
use gopher_netplay::wire::NetplayMessage;

fn config(local_players: Vec<usize>, number_of_players: usize) -> NetplayConfig {
    NetplayConfig {
        server_addr: "ws://example.org/gauntlet".to_string(),
        local_players,
        number_of_players,
        input_delay: 3,
        ice_config_path: std::path::PathBuf::from("/tmp/ice.json"),
    }
}

fn announced(from: PeerId, slots: &[usize]) -> (PeerId, Vec<u8>) {
    (from, send_player_number(&vec![0], &slots.to_vec()).remove(0).1)
}

#[test]
fn an_announcement_lists_slots_in_eight_bytes_each() {
    let out = send_player_number(&vec![5, 6], &vec![0, 258]);
    let expected = [
        &[13u8][..],
        b"player_number",
        &[16],
        &[0, 0, 0, 0, 0, 0, 0, 0],
        &[0, 0, 0, 0, 0, 0, 1, 2],
    ]
    .concat();
    assert_eq!(out, vec![(5, expected.clone()), (6, expected)]);
}

#[test]
fn one_announcement_tells_all_slots() {
    let mut owners = own_slots(&vec![0]);
    get_player_numbers(&vec![announced(7, &[1, 2])], &mut owners);
    assert_eq!(entries(&owners), vec![(0, None), (1, Some(7)), (2, Some(7))]);
}

#[test]
fn other_messages_tell_no_slots() {
    let mut owners = own_slots(&vec![1]);
    let other = NetplayMessage { name: "rng".to_string(), data: vec![0; 8] }.encode();
    get_player_numbers(&vec![(7, other)], &mut owners);
    assert_eq!(entries(&owners), vec![(1, None)]);
}

#[test]
fn bytes_too_few_for_a_slot_are_left_out() {
    let mut owners = own_slots(&vec![]);
    let mut data = vec![0, 0, 0, 0, 0, 0, 0, 3];
    data.extend_from_slice(&[1, 2, 3]);
    let message = NetplayMessage { name: "player_number".to_string(), data }.encode();
    get_player_numbers(&vec![(8, message)], &mut owners);
    assert_eq!(entries(&owners), vec![(3, Some(8))]);
}

#[test]
fn the_last_claim_counts() {
    let mut owners = own_slots(&vec![0]);
    get_player_numbers(&vec![announced(7, &[1]), announced(8, &[1, 0])], &mut owners);
    assert_eq!(entries(&owners), vec![(0, Some(8)), (1, Some(8))]);
}

#[test]
fn all_machines_agree_on_the_owners() {
    let machines: Vec<(PeerId, Vec<usize>)> = vec![(10, vec![0, 3]), (20, vec![1]), (30, vec![2])];
    for (id, slots) in machines.iter() {
        let mut owners = own_slots(slots);
        let heard: Vec<(PeerId, Vec<u8>)> = machines
            .iter()
            .rev()
            .filter(|m| m.0 != *id)
            .map(|m| announced(m.0, &m.1))
            .collect();
        get_player_numbers(&heard, &mut owners);
        for (other, theirs) in machines.iter() {
            for slot in theirs {
                assert_eq!(owners[slot], if other == id { None } else { Some(*other) });
            }
        }
        assert_eq!(owners.len(), 4);
    }
}

#[test]
fn owners_have_to_be_connected() {
    let mut owners = own_slots(&vec![0]);
    owners.insert(1, Some(7));
    assert!(verify_peers(&vec![3, 7], &owners));
    assert!(!verify_peers(&vec![3], &owners));
    assert!(verify_peers(&vec![], &own_slots(&vec![0, 1])));
}

#[test]
fn forgetting_peers_leaves_the_own_slots() {
    let mut owners = own_slots(&vec![0, 2]);
    get_player_numbers(&vec![announced(7, &[1])], &mut owners);
    assert_eq!(forget_peers(&owners), own_slots(&vec![0, 2]));
}

#[test]
fn the_socket_has_an_unreliable_and_a_reliable_channel() {
    let plan = socket_plan(&config(vec![0], 2), None);
    assert_eq!(plan.room_url, "ws://example.org/gauntlet");
    assert_eq!(plan.channels, vec![ChannelKind::Unreliable, ChannelKind::Reliable]);
    assert_eq!((SESSION_CHANNEL, MESSAGE_CHANNEL), (0, 1));
    assert!(plan.ice_server.is_none());
    let ice = RtcIceServerConfig {
        urls: vec!["turn:example.org".to_string()],
        username: Some("player".to_string()),
        credential: None,
    };
    let plan = socket_plan(&config(vec![0], 2), Some(ice));
    let ice = plan.ice_server.unwrap();
    assert_eq!(ice.urls, vec!["turn:example.org".to_string()]);
    assert_eq!((ice.username, ice.credential), (Some("player".to_string()), None));
}

#[test]
fn a_round_announces_to_every_connected_peer() {
    let start = begin_round(&vec![PeerState::Connected], &vec![4, 5], &vec![1]);
    assert!(!start.reset_timer);
    assert_eq!(start.announcements.len(), 2);
    assert_eq!(start.announcements[1], (5, announced(0, &[1]).1));
    let lonely = begin_round(&vec![PeerState::Connected, PeerState::Disconnected], &vec![], &vec![1]);
    assert!(lonely.reset_timer);
    assert!(lonely.announcements.is_empty());
}

#[test]
fn the_search_ends_when_every_slot_has_an_owner() {
    let mut owners = own_slots(&vec![0]);
    let end = end_round(&mut owners, 2, &vec![7], &vec![announced(7, &[1])], 99, 10, 0);
    assert_eq!(end, RoundEnd::Complete);
    assert_eq!(entries(&owners), vec![(0, None), (1, Some(7))]);
}

#[test]
fn the_search_goes_on_while_a_slot_has_no_owner() {
    let mut owners = own_slots(&vec![0]);
    let end = end_round(&mut owners, 3, &vec![7], &vec![announced(7, &[1])], 10, 10, 4_000_000_000);
    assert_eq!(end, RoundEnd::Searching { restart: false, show_progress: false });
    assert_eq!(owners.len(), 2);
}

#[test]
fn the_search_goes_on_while_a_slot_out_of_range_is_claimed() {
    let mut owners = own_slots(&vec![0]);
    let end = end_round(&mut owners, 2, &vec![7], &vec![announced(7, &[5])], 0, 10, 0);
    assert_eq!(end, RoundEnd::Searching { restart: false, show_progress: false });
    assert_eq!(entries(&owners), vec![(0, None), (5, Some(7))]);
    assert!(!slots_below(&owners, 2) && slots_below(&owners, 6));
    let end = end_round(&mut owners, 2, &vec![7], &vec![announced(7, &[1])], 0, 10, 0);
    assert_eq!(end, RoundEnd::Searching { restart: false, show_progress: false });
    let end = end_round(&mut owners, 2, &vec![7], &vec![], 11, 10, 0);
    assert_eq!(end, RoundEnd::Searching { restart: true, show_progress: false });
    let end = end_round(&mut owners, 2, &vec![7], &vec![announced(7, &[1])], 0, 10, 0);
    assert_eq!(end, RoundEnd::Complete);
}

#[test]
fn the_search_ends_on_every_machine_that_has_heard_from_all_others() {
    let machines: Vec<(PeerId, Vec<usize>)> = vec![(10, vec![2, 0]), (20, vec![1]), (30, vec![3])];
    for (id, slots) in machines.iter() {
        let mut owners = own_slots(slots);
        let others: Vec<(PeerId, Vec<usize>)> =
            machines.iter().filter(|m| m.0 != *id).cloned().collect();
        let connected: Vec<PeerId> = others.iter().map(|m| m.0).collect();
        let first = vec![announced(others[0].0, &others[0].1)];
        let end = end_round(&mut owners, 4, &connected, &first, 0, 10, 0);
        assert_eq!(end, RoundEnd::Searching { restart: false, show_progress: false });
        let second = vec![announced(others[1].0, &others[1].1), first[0].clone()];
        let end = end_round(&mut owners, 4, &connected, &second, 0, 10, 0);
        assert_eq!(end, RoundEnd::Complete);
    }
}

#[test]
fn the_search_goes_on_while_an_owner_is_gone() {
    let mut owners = own_slots(&vec![0]);
    owners.insert(1, Some(8));
    let end = end_round(&mut owners, 2, &vec![7], &vec![], 0, 10, 4_000_000_001);
    assert_eq!(end, RoundEnd::Searching { restart: false, show_progress: true });
}

#[test]
fn nobody_is_listened_to_without_a_connected_peer() {
    let mut owners = own_slots(&vec![0, 1]);
    let end = end_round(&mut owners, 2, &vec![], &vec![announced(7, &[5])], 0, 10, 0);
    assert_eq!(end, RoundEnd::Searching { restart: false, show_progress: false });
    assert_eq!(owners.len(), 2);
}

#[test]
fn a_search_that_takes_too_long_starts_again() {
    let mut owners = own_slots(&vec![0]);
    let end = end_round(&mut owners, 3, &vec![7], &vec![announced(7, &[1])], 11, 10, 0);
    assert_eq!(end, RoundEnd::Searching { restart: true, show_progress: false });
    assert_eq!(entries(&owners), vec![(0, None)]);
}

#[test]
fn the_player_is_told_how_many_are_missing() {
    let owners = own_slots(&vec![0]);
    assert_eq!(still_connecting(4, &owners), Notice::StillConnecting(3));
    assert_eq!(
        still_connecting(4, &owners).text(),
        "Still connecting to 3 netplay peer(s)...\nPlease wait..."
    );
}

fn set_up(pal: bool, debug: bool) -> (SessionPlan, Netplay<u8, u8>) {
    let mut owners: PlayerNumbers = own_slots(&vec![1]);
    owners.insert(0, Some(9));
    owners.insert(2, Some(5));
    owners.insert(3, Some(9));
    init(&config(vec![1], 4), &owners, pal, debug)
}

#[test]
fn the_session_has_every_player_in_order() {
    let (plan, netplay) = set_up(false, false);
    assert_eq!(
        plan.players,
        vec![
            (0, PlayerType::Remote(9)),
            (1, PlayerType::Local),
            (2, PlayerType::Remote(5)),
            (3, PlayerType::Remote(9)),
        ]
    );
    assert_eq!(netplay.peers, vec![9, 5]);
}

#[test]
fn the_session_is_made_with_these_figures() {
    let (plan, _) = set_up(false, false);
    assert_eq!((plan.num_players, plan.input_delay, plan.fps), (4, 3, 60));
    assert_eq!((plan.desync_interval, plan.max_prediction), (60, 16));
    assert_eq!(plan.disconnect_timeout_secs, 5);
    let (plan, _) = set_up(true, true);
    assert_eq!((plan.fps, plan.disconnect_timeout_secs), (50, 10));
}

#[test]
fn the_session_begins_empty() {
    let (_, netplay) = set_up(false, false);
    assert!(!netplay.disconnected);
    assert_eq!(netplay.local_players, vec![1]);
    assert_eq!(netplay.connected, [true, true, true, true]);
    assert_eq!(netplay.input_delay, 3);
    assert!(netplay.messages.get("rtc").is_none());
    assert!(netplay.received_data.is_empty() && netplay.incoming_message.is_empty());
    assert!(netplay.inputs.is_empty() && netplay.requests.is_empty());
    assert_eq!(netplay.ice_config_path, std::path::PathBuf::from("/tmp/ice.json"));
    assert_eq!((netplay.last_bytes_sent, netplay.last_bytes_recv), (0, 0));
    let mut owners = own_slots(&vec![0]);
    owners.insert(1, Some(2));
    let (_, two): (SessionPlan, Netplay<u8, u8>) = init(&config(vec![0], 2), &owners, false, false);
    assert_eq!(two.connected, [true, true, false, false]);
}

#[test]
fn the_owner_of_slot_zero_is_the_host() {
    let (_, guest) = set_up(false, false);
    assert!(!guest.is_host());
    assert!(guest.owns_slot(1) && !guest.owns_slot(2));
    let mut owners = own_slots(&vec![0, 1]);
    owners.insert(2, Some(9));
    let (_, host): (SessionPlan, Netplay<u8, u8>) = init(&config(vec![0, 1], 3), &owners, false, false);
    assert!(host.is_host());
    assert!(contains_slot(&host.local_players, 1) && !contains_slot(&host.local_players, 2));
    assert!(contains_peer(&host.peers, 9) && !contains_peer(&host.peers, 8));
}

#[test]
fn a_session_has_ten_seconds_to_start() {
    assert!(!start_timed_out(10_000_000_000));
    assert!(start_timed_out(10_000_000_001));
}
