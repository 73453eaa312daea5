use gopher_netplay::packet::{keep_present, MatchboxChannel};

fn session_message(bytes: &[u8]) -> ggrs::Message {
    postcard::from_bytes(bytes).unwrap()
}

#[test]
fn session_messages_are_encoded_and_counted() {
    let mut channel = MatchboxChannel::new();
    assert_eq!((channel.bytes_sent, channel.bytes_recv), (0, 0));
    let keep_alive = session_message(&[5, 7]);
    let sync = session_message(&[0xac, 0x02, 0, 9]);
    assert_eq!(channel.send_to(&keep_alive), vec![5, 7]);
    assert_eq!(channel.send_to(&sync), vec![0xac, 0x02, 0, 9]);
    assert_eq!((channel.bytes_sent, channel.bytes_recv), (6, 0));
}

#[test]
fn packets_sent_are_packets_received() {
    let mut from = MatchboxChannel::new();
    let mut to = MatchboxChannel::new();
    let messages = vec![session_message(&[5, 7]), session_message(&[1, 0, 9])];
    let packets: Vec<(char, Vec<u8>)> = messages
        .iter()
        .zip(['a', 'b'])
        .map(|(message, sender)| (sender, from.send_to(message)))
        .collect();
    let out = to.receive_all_messages(&packets);
    assert_eq!(out.len(), 2);
    assert!(out[0].0 == 'a' && out[0].1 == messages[0]);
    assert!(out[1].0 == 'b' && out[1].1 == messages[1]);
    assert_eq!((to.bytes_sent, to.bytes_recv), (0, 5));
}

#[test]
fn packets_that_cannot_be_read_are_counted_and_left_out() {
    let mut channel = MatchboxChannel::new();
    let packets = vec![(1u8, vec![0xff, 0xff]), (2, vec![5, 7]), (3, vec![]), (4, vec![5, 99])];
    let out = channel.receive_all_messages(&packets);
    assert_eq!(out.len(), 1);
    assert!(out[0].0 == 2 && out[0].1 == session_message(&[5, 7]));
    assert_eq!(channel.bytes_recv, 6);
}

#[test]
fn counters_run_on_at_zero() {
    let mut channel = MatchboxChannel { bytes_sent: u64::MAX, bytes_recv: u64::MAX - 1 };
    channel.send_to(&session_message(&[5, 7]));
    channel.receive_all_messages(&vec![((), vec![0; 3])]);
    assert_eq!((channel.bytes_sent, channel.bytes_recv), (1, 1));
}

#[test]
fn senders_without_a_message_are_left_out() {
    let decoded = vec![('a', Some(1)), ('b', None), ('c', Some(3)), ('d', None)];
    assert_eq!(keep_present(decoded), vec![('a', 1), ('c', 3)]);
}
