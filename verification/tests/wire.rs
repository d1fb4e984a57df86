use mechanix::wire::{
    display_object_id, encode_message, encode_string, parse_messages, read_string, read_u32, ObjectId,
};

fn message(sender: u32, opcode: u16, body: &[u8]) -> Vec<u8> {
    let mut buf = Vec::new();
    encode_message(&mut buf, sender, opcode, body);
    buf
}

#[test]
fn a_message_is_header_then_body() {
    let m = message(7, 2, &[1, 2, 3, 4]);
    assert_eq!(m.len(), 12);
    assert_eq!(&m[0..4], &7u32.to_ne_bytes());
    assert_eq!(&m[4..8], &((12u32 << 16) | 2).to_ne_bytes());
    assert_eq!(&m[8..], &[1, 2, 3, 4]);
}

#[test]
fn whole_messages_parse_and_the_tail_is_kept() {
    let mut bytes = message(5, 1, &[9, 9, 9, 9]);
    bytes.extend(message(6, 0, &[]));
    let second = message(8, 3, &[1, 2, 3, 4, 5, 6, 7, 8]);
    bytes.extend_from_slice(&second[..5]);
    let (events, rest) = parse_messages(bytes);
    assert_eq!(events.len(), 2);
    assert_eq!(events[0].object_id, ObjectId(5));
    assert_eq!(events[0].opcode, 1);
    assert_eq!(events[0].data, vec![9, 9, 9, 9]);
    assert_eq!(events[1].object_id, ObjectId(6));
    assert_eq!(events[1].data, Vec::<u8>::new());
    assert_eq!(rest, second[..5].to_vec());
}

#[test]
fn a_message_cut_between_reads_parses_whole_after_the_second() {
    let whole = message(8, 3, &[1, 2, 3, 4, 5, 6, 7, 8]);
    let (first, rest) = parse_messages(whole[..10].to_vec());
    assert!(first.is_empty());
    let mut joined = rest;
    joined.extend_from_slice(&whole[10..]);
    let (second, rest) = parse_messages(joined);
    assert_eq!(second.len(), 1);
    assert_eq!(second[0].data, vec![1, 2, 3, 4, 5, 6, 7, 8]);
    assert!(rest.is_empty());
}

#[test]
fn strings_round_trip_with_their_padding() {
    let mut buf = Vec::new();
    encode_string(&mut buf, "wl_seat");
    assert_eq!(buf.len(), 4 + 8);
    assert_eq!(&buf[0..4], &8u32.to_ne_bytes());
    assert_eq!(&buf[4..11], b"wl_seat");
    assert_eq!(buf[11], 0);
    encode_string(&mut buf, "abc");
    let mut offset = 0;
    assert_eq!(read_string(&buf, &mut offset), Some("wl_seat".to_string()));
    assert_eq!(offset, 12);
    assert_eq!(read_string(&buf, &mut offset), Some("abc".to_string()));
    assert_eq!(offset, 20);
    assert_eq!(read_string(&buf, &mut offset), None);
}

#[test]
fn words_read_in_host_order_and_stop_at_the_end() {
    let mut data = 0xdead_beefu32.to_ne_bytes().to_vec();
    data.push(1);
    let mut offset = 0;
    assert_eq!(read_u32(&data, &mut offset), Some(0xdead_beef));
    assert_eq!(offset, 4);
    assert_eq!(read_u32(&data, &mut offset), None);
    assert_eq!(offset, 4);
}

#[test]
fn a_string_that_is_not_utf8_reads_as_none_and_is_skipped() {
    let mut data = 3u32.to_ne_bytes().to_vec();
    data.extend_from_slice(&[0xff, 0xfe, 0, 0]);
    let mut offset = 0;
    assert_eq!(read_string(&data, &mut offset), None);
    assert_eq!(offset, 8);
}

#[test]
fn the_display_is_object_one() {
    assert_eq!(display_object_id(), ObjectId(1));
}
