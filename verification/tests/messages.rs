use gopher_netplay::config::NetplayConfig;
use gopher_netplay::handshake::init;
use gopher_netplay::mailbox::{
    check_disconnect, check_input_delay, process_reliable_messages, receive_message, receive_rng,
    receive_rtc, receive_save, Effect, ReceiveStep,
};
use gopher_netplay::netplay::Netplay;
use gopher_netplay::notice::Notice;
use gopher_netplay::outbox::{
    close, send_input_delay, send_message, send_rng, send_rtc, send_save, CHUNK_SIZE,
};
use gopher_netplay::peer::PeerId;
use gopher_netplay::slots::PlayerNumbers;
use gopher_netplay::wire::NetplayMessage;

fn session(peers: &[PeerId]) -> Netplay<u8, u8> {
    let config = NetplayConfig {
        server_addr: "ws://localhost/room".to_string(),
        local_players: vec![0],
        number_of_players: peers.len() + 1,
        input_delay: 2,
        ice_config_path: std::path::PathBuf::from("ice.json"),
    };
    let mut owners: PlayerNumbers = PlayerNumbers::new();
    owners.insert(0, None);
    for (i, peer) in peers.iter().enumerate() {
        owners.insert(i + 1, Some(*peer));
    }
    init(&config, &owners, false, false).1
}

fn arriving(packets: &[(PeerId, Vec<u8>)], peer: PeerId) -> Vec<Vec<u8>> {
    packets.iter().filter(|p| p.0 == peer).map(|p| p.1.clone()).collect()
}

#[test]
fn a_message_goes_to_every_peer() {
    let message = NetplayMessage { name: "a".to_string(), data: vec![5] };
    let bytes = vec![1, b'a', 1, 5];
    let out = send_message(&session(&[10, 20]), &message);
    assert_eq!(out, vec![(10, bytes.clone()), (20, bytes)]);
}

#[test]
fn a_long_message_goes_in_pieces() {
    let message = NetplayMessage { name: "s".to_string(), data: vec![1; 40000] };
    let out = send_message(&session(&[10, 20]), &message);
    let lengths: Vec<(PeerId, usize)> = out.iter().map(|p| (p.0, p.1.len())).collect();
    let last = 40000 + 5 - 2 * CHUNK_SIZE;
    assert_eq!(
        lengths,
        vec![(10, 16384), (10, 16384), (10, last), (20, 16384), (20, 16384), (20, last)]
    );
}

#[test]
fn the_clock_arrives() {
    let host = session(&[10]);
    let mut guest = session(&[99]);
    for rtc in [0i64, 1_700_000_000, -5, i64::MIN] {
        let out = process_reliable_messages(&mut guest, arriving(&send_rtc(&host, rtc), 10), &vec![0]);
        assert!(out.effects.is_empty() && !out.malformed);
        assert!(matches!(receive_rtc(&mut guest, 0), ReceiveStep::Ready(t) if t == rtc));
        assert!(matches!(receive_rtc(&mut guest, 0), ReceiveStep::Retry));
    }
}

#[test]
fn the_seed_arrives() {
    let host = session(&[10]);
    let mut guest = session(&[99]);
    let packets = send_rng(&host, 0xdead_beef_0000_0001);
    assert_eq!(packets[0].1, vec![3, b'r', b'n', b'g', 8, 0xde, 0xad, 0xbe, 0xef, 0, 0, 0, 1]);
    process_reliable_messages(&mut guest, arriving(&packets, 10), &vec![0]);
    assert!(matches!(
        receive_rng(&mut guest, u128::MAX),
        ReceiveStep::Ready(0xdead_beef_0000_0001)
    ));
}

#[test]
fn a_long_save_arrives_whole() {
    let host = session(&[10]);
    let mut guest = session(&[99]);
    let save: Vec<u8> = (0..50000u32).map(|i| (i % 251) as u8).collect();
    let mut chunks = arriving(&send_save(&host, "sra", &save), 10);
    assert_eq!(chunks.len(), 4);
    let rest = chunks.split_off(2);
    let mut read = vec![9];
    process_reliable_messages(&mut guest, chunks, &vec![0]);
    assert!(matches!(receive_save(&mut guest, "sra", &mut read, 5), ReceiveStep::Retry));
    assert_eq!(read, vec![9]);
    process_reliable_messages(&mut guest, rest, &vec![0]);
    assert!(matches!(receive_save(&mut guest, "eep", &mut read, 5), ReceiveStep::Retry));
    assert!(matches!(receive_save(&mut guest, "sra", &mut read, 5), ReceiveStep::Ready(())));
    assert_eq!(read, save);
}

#[test]
fn an_empty_save_arrives() {
    let mut guest = session(&[99]);
    let mut read = vec![1, 2];
    process_reliable_messages(
        &mut guest,
        arriving(&send_save(&session(&[10]), "fla", &vec![]), 10),
        &vec![0],
    );
    assert!(matches!(receive_save(&mut guest, "fla", &mut read, 0), ReceiveStep::Ready(())));
    assert!(read.is_empty());
}

#[test]
fn messages_sent_one_after_another_are_taken_in_order() {
    let host = session(&[10]);
    let mut guest = session(&[99]);
    let mut chunks = arriving(&send_save(&host, "sra", &vec![1; 20000]), 10);
    chunks.extend(arriving(&send_rng(&host, 7), 10));
    chunks.extend(arriving(&send_save(&host, "sra", &vec![2; 3]), 10));
    process_reliable_messages(&mut guest, chunks, &vec![0]);
    let mut read = vec![];
    assert!(matches!(receive_save(&mut guest, "sra", &mut read, 0), ReceiveStep::Ready(())));
    assert_eq!(read, vec![2; 3]);
    assert!(matches!(receive_rng(&mut guest, 0), ReceiveStep::Ready(7)));
    assert!(guest.incoming_message.is_empty() && guest.received_data.is_empty());
}

#[test]
fn a_wait_ends_after_ten_seconds() {
    let mut guest = session(&[99]);
    assert!(matches!(receive_message(&mut guest, "rtc", 10_000_000_000), ReceiveStep::Retry));
    assert!(matches!(receive_message(&mut guest, "rtc", 10_000_000_001), ReceiveStep::TimedOut));
    assert!(matches!(receive_rtc(&mut guest, 10_000_000_001), ReceiveStep::TimedOut));
    assert!(matches!(receive_rng(&mut guest, 10_000_000_001), ReceiveStep::TimedOut));
    let mut save = vec![3];
    assert!(matches!(
        receive_save(&mut guest, "sra", &mut save, 10_000_000_001),
        ReceiveStep::TimedOut
    ));
    assert_eq!(save, vec![3]);
}

#[test]
fn a_new_input_delay_is_set_for_every_local_player() {
    let mut host = session(&[10]);
    let mut guest = session(&[99]);
    let sent = send_input_delay(&mut host, 4, &vec![0, 2]);
    assert_eq!(host.input_delay, 4);
    assert_eq!(
        sent.effects,
        vec![
            Effect::SetInputDelay { handle: 0, delay: 4 },
            Effect::SetInputDelay { handle: 2, delay: 4 }
        ]
    );
    let out = process_reliable_messages(&mut guest, arriving(&sent.packets, 10), &vec![1]);
    assert_eq!(out.effects, vec![Effect::SetInputDelay { handle: 1, delay: 4 }]);
    assert_eq!(guest.input_delay, 4);
    assert!(guest.messages.get("input_delay").is_none());
}

#[test]
fn an_input_delay_that_is_no_news_changes_nothing() {
    let mut host = session(&[10]);
    let mut guest = session(&[99]);
    let sent = send_input_delay(&mut host, 2, &vec![0]);
    assert_eq!(sent.effects.len(), 1);
    let out = process_reliable_messages(&mut guest, arriving(&sent.packets, 10), &vec![1]);
    assert!(out.effects.is_empty());
    assert_eq!(guest.input_delay, 2);
}

#[test]
fn an_input_delay_below_one_frame_is_passed_over() {
    let mut host = session(&[10]);
    let sent = send_input_delay(&mut host, 0, &vec![0]);
    assert!(sent.packets.is_empty() && sent.effects.is_empty());
    assert_eq!(host.input_delay, 2);
}

#[test]
fn a_malformed_input_delay_stops_the_delivery() {
    let mut guest = session(&[99]);
    let bad = NetplayMessage { name: "input_delay".to_string(), data: vec![1, 2, 3] }.encode();
    let later = NetplayMessage { name: "rng".to_string(), data: vec![0; 8] }.encode();
    let out = process_reliable_messages(&mut guest, vec![bad, later.clone()], &vec![0]);
    assert!(out.malformed);
    assert_eq!(guest.received_data.len(), 1);
    assert_eq!(guest.received_data[0], later);
    assert_eq!(guest.input_delay, 2);
}

#[test]
fn empty_pieces_after_a_malformed_message_are_not_looked_at() {
    let mut guest = session(&[99]);
    let bad = NetplayMessage { name: "input_delay".to_string(), data: vec![1] }.encode();
    let (first, second) = bad.split_at(5);
    let chunks = vec![first.to_vec(), vec![], second.to_vec(), vec![], vec![]];
    let out = process_reliable_messages(&mut guest, chunks, &vec![0]);
    assert!(out.malformed);
    assert_eq!(guest.received_data.len(), 2);
}

#[test]
fn a_farewell_ends_the_session_once() {
    let host = session(&[10]);
    let mut guest = session(&[99]);
    let farewell = close(&host).unwrap();
    assert_eq!(farewell[0].1, [&[10u8][..], b"disconnect", &[0]].concat());
    let out = process_reliable_messages(&mut guest, arriving(&farewell, 10), &vec![0]);
    assert_eq!(out.effects, vec![Effect::Show(Notice::SessionEnded)]);
    assert!(guest.disconnected);
    let again = process_reliable_messages(&mut guest, arriving(&farewell, 10), &vec![0]);
    assert!(again.effects.is_empty());
    assert!(guest.disconnected);
    assert!(guest.messages.get("disconnect").is_some());
    assert!(close(&guest).is_none());
}

#[test]
fn checks_without_a_message_do_nothing() {
    let mut guest = session(&[99]);
    assert!(check_input_delay(&mut guest, &vec![0]).is_empty());
    assert!(check_disconnect(&mut guest).is_empty());
    assert!(!guest.disconnected);
}

#[test]
fn pieces_in_two_goes_are_pieces_in_one() {
    let host = session(&[10]);
    let chunks = arriving(&send_save(&host, "sra", &vec![4; 40000]), 10);
    let mut at_once = session(&[99]);
    let mut in_turn = session(&[99]);
    process_reliable_messages(&mut at_once, chunks.clone(), &vec![0]);
    for chunk in chunks {
        process_reliable_messages(&mut in_turn, vec![chunk], &vec![0]);
    }
    assert_eq!(at_once.messages.get("sra"), in_turn.messages.get("sra"));
    assert_eq!(at_once.messages.get("sra"), Some(&vec![4; 40000]));
}

#[test]
fn a_message_arrives_in_whatever_pieces() {
    let bytes = NetplayMessage { name: "sra".to_string(), data: vec![1, 2, 3] }.encode();
    for k in 0..bytes.len() {
        let mut guest = session(&[99]);
        let mut chunks: Vec<Vec<u8>> = bytes[..k].iter().map(|b| vec![*b]).collect();
        chunks.push(vec![]);
        chunks.push(bytes[k..].to_vec());
        chunks.push(vec![]);
        chunks.push(vec![]);
        process_reliable_messages(&mut guest, chunks, &vec![0]);
        assert_eq!(guest.messages.get("sra"), Some(&vec![1, 2, 3]));
        assert!(guest.incoming_message.is_empty());
    }
}

#[test]
fn pieces_left_over_are_taken_first() {
    let mut guest = session(&[99]);
    guest.received_data.push_back(vec![1, b'a']);
    process_reliable_messages(&mut guest, vec![vec![1, 7]], &vec![0]);
    assert!(matches!(receive_message(&mut guest, "a", 0), ReceiveStep::Ready(d) if d == vec![7]));
}
