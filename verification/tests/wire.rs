use gopher_netplay::bytes::{be_to_i64, be_to_u128, be_to_u64, cut, i64_to_be, slice_of, u64_to_be};
use gopher_netplay::wire::NetplayMessage;

fn message(name: &str, data: Vec<u8>) -> NetplayMessage {
    NetplayMessage { name: name.to_string(), data }
}

#[test]
fn a_message_is_two_lengths_with_their_bytes() {
    assert_eq!(message("rtc", vec![1, 2]).encode(), vec![3, b'r', b't', b'c', 2, 1, 2]);
    assert_eq!(message("", vec![]).encode(), vec![0, 0]);
}

#[test]
fn lengths_above_127_take_more_bytes() {
    let bytes = message("x", vec![9; 300]).encode();
    assert_eq!(&bytes[..4], &[1, b'x', 0xac, 0x02]);
    assert_eq!(bytes.len(), 304);
}

#[test]
fn names_are_written_in_utf8() {
    assert_eq!(message("\u{e9}", vec![]).encode(), vec![2, 0xc3, 0xa9, 0]);
}

#[test]
fn a_message_is_read_back() {
    let read = NetplayMessage::decode(&message("save", vec![7; 20000]).encode()).unwrap();
    assert_eq!(read.name, "save");
    assert_eq!(read.data, vec![7; 20000]);
}

#[test]
fn what_follows_a_message_is_not_looked_at() {
    let mut bytes = message("rng", vec![4]).encode();
    bytes.extend_from_slice(&[1, 2, 3]);
    let read = NetplayMessage::decode(&bytes).unwrap();
    assert_eq!((read.name.as_str(), read.data), ("rng", vec![4]));
}

#[test]
fn an_incomplete_message_is_not_read() {
    let bytes = message("rng", vec![1, 2, 3, 4, 5, 6, 7, 8]).encode();
    for k in 0..bytes.len() {
        assert!(NetplayMessage::decode(&bytes[..k].to_vec()).is_none());
    }
}

#[test]
fn a_length_may_be_written_in_more_bytes_than_it_needs() {
    let read = NetplayMessage::decode(&vec![0x81, 0x00, b'a', 0x80, 0x00]).unwrap();
    assert_eq!((read.name.as_str(), read.data.len()), ("a", 0));
}

#[test]
fn a_length_that_does_not_end_or_fit_is_not_read() {
    assert!(NetplayMessage::decode(&vec![0x80; 11]).is_none());
    let mut too_large = vec![0xff; 9];
    too_large.push(0x02);
    too_large.extend_from_slice(&[0; 8]);
    assert!(NetplayMessage::decode(&too_large).is_none());
}

#[test]
fn a_name_that_is_not_utf8_is_not_read() {
    assert!(NetplayMessage::decode(&vec![1, 0xff, 0]).is_none());
}

#[test]
fn big_endian_numbers() {
    assert_eq!(u64_to_be(0x0102_0304_0506_0708), vec![1, 2, 3, 4, 5, 6, 7, 8]);
    assert_eq!(be_to_u64(&[1, 2, 3, 4, 5, 6, 7, 8]), 0x0102_0304_0506_0708);
    assert_eq!(u64_to_be(u64::MAX), vec![255; 8]);
    for x in [0i64, 1, -1, i64::MIN, i64::MAX, 1_700_000_000] {
        assert_eq!(i64_to_be(x), x.to_be_bytes().to_vec());
        assert_eq!(be_to_i64(&x.to_be_bytes()), x);
    }
    let eight = [9u8, 0, 255, 1, 128, 7, 0, 3];
    assert_eq!(u64_to_be(be_to_u64(&eight)), eight.to_vec());
    let mut seventeen: Vec<u8> = vec![0; 15];
    seventeen.extend_from_slice(&[2, 9]);
    assert_eq!(be_to_u128(&seventeen), 2);
}

#[test]
fn pieces_are_full_but_the_last() {
    let data: Vec<u8> = (0..10).collect();
    assert_eq!(cut(&data, 4), vec![vec![0, 1, 2, 3], vec![4, 5, 6, 7], vec![8, 9]]);
    assert_eq!(cut(&data, 5), vec![vec![0, 1, 2, 3, 4], vec![5, 6, 7, 8, 9]]);
    assert!(cut(&vec![], 4).is_empty());
    assert_eq!(slice_of(&data, 2, 5), vec![2, 3, 4]);
}

#[test]
fn pieces_join_to_the_whole() {
    let data: Vec<u8> = (0..100).collect();
    for size in [1usize, 7, 99, 100, 101] {
        assert_eq!(cut(&data, size).concat(), data);
    }
}
