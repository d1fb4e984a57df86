use mechanix::wayland::Objects;
use mechanix::wire::{encode_message, parse_messages, ObjectId};
use mechanix::args::{decode_args as decode_with, encode_arg, encode_args, encode_array, read_array, read_optional_string, Arg, ArgKind};

/// The objects the tests' connection knows: the display and 3, 5, 9.
fn objects() -> Objects {
    let mut o = Objects::new();
    for id in [3, 5, 9] {
        o.register(ObjectId(id), "wl_surface");
    }
    o
}

/// A body read with no enum tables, the test objects and two descriptors.
fn decode_args(kinds: &[ArgKind], data: &[u8]) -> Option<Vec<Arg>> {
    decode_with(kinds, data, &vec![], &objects(), 2)
}

fn word(x: u32) -> [u8; 4] {
    x.to_ne_bytes()
}

fn body(words: &[u32]) -> Vec<u8> {
    let mut out = Vec::new();
    for w in words {
        out.extend_from_slice(&word(*w));
    }
    out
}

#[test]
fn words_decode_by_their_kind() {
    let data = body(&[0xffff_fffe, 7, 0x180, 9, 0, 12]);
    let kinds = [ArgKind::Int, ArgKind::Uint, ArgKind::Fixed, ArgKind::Object, ArgKind::OptObject, ArgKind::NewId];
    let args = decode_args(&kinds, &data).unwrap();
    assert_eq!(
        args,
        vec![Arg::Int(-2), Arg::Uint(7), Arg::Fixed(0x180), Arg::Object(9), Arg::OptObject(None), Arg::NewId(12)]
    );
}

#[test]
fn present_optional_object_keeps_its_id() {
    let data = body(&[5]);
    assert_eq!(decode_args(&[ArgKind::OptObject], &data), Some(vec![Arg::OptObject(Some(5))]));
}

#[test]
fn short_body_decodes_to_nothing() {
    let data = body(&[1]);
    assert_eq!(decode_args(&[ArgKind::Uint, ArgKind::Uint], &data), None);
    assert_eq!(decode_args(&[ArgKind::Uint, ArgKind::Uint], &[1, 2, 3, 4, 5, 6, 7]), None);
}

#[test]
fn trailing_bytes_are_ignored() {
    let data = body(&[3, 4]);
    assert_eq!(decode_args(&[ArgKind::Uint], &data), Some(vec![Arg::Uint(3)]));
}

#[test]
fn fd_takes_no_bytes() {
    let data = body(&[8]);
    assert_eq!(decode_args(&[ArgKind::Fd, ArgKind::Uint, ArgKind::Fd], &data), Some(vec![Arg::Fd, Arg::Uint(8), Arg::Fd]));
    let mut buf = Vec::new();
    encode_arg(&mut buf, &Arg::Fd);
    assert!(buf.is_empty());
}

#[test]
fn null_string_is_a_zero_word() {
    let mut buf = Vec::new();
    encode_arg(&mut buf, &Arg::OptStr(None));
    assert_eq!(buf, body(&[0]));
    let mut offset = 0;
    assert_eq!(read_optional_string(&buf, &mut offset), Some(None));
    assert_eq!(offset, 4);
}

#[test]
fn optional_string_reads_like_a_string() {
    let mut buf = Vec::new();
    encode_arg(&mut buf, &Arg::OptStr(Some("hi".to_string())));
    assert_eq!(buf.len(), 8);
    let mut offset = 0;
    assert_eq!(read_optional_string(&buf, &mut offset), Some(Some("hi".to_string())));
    assert_eq!(offset, 8);
}

#[test]
fn array_is_padded_to_four() {
    let mut buf = Vec::new();
    encode_array(&mut buf, &[1, 2, 3]);
    let mut expected = word(3).to_vec();
    expected.extend_from_slice(&[1, 2, 3, 0]);
    assert_eq!(buf, expected);
    let mut offset = 0;
    assert_eq!(read_array(&buf, &mut offset), Some(vec![1, 2, 3]));
    assert_eq!(offset, 8);
}

#[test]
fn array_needs_its_padding() {
    let mut data = word(3).to_vec();
    data.extend_from_slice(&[1, 2, 3]);
    let mut offset = 0;
    assert_eq!(read_array(&data, &mut offset), None);
    assert_eq!(offset, 4);
}

#[test]
fn new_object_of_any_interface_reads_id_name_version() {
    let mut buf = Vec::new();
    encode_arg(&mut buf, &Arg::AnyNewId(4, "wl_seat".to_string(), 7));
    assert_eq!(buf.len(), 4 + 4 + 8 + 4);
    assert_eq!(&buf[0..4], &word(4));
    assert_eq!(&buf[16..20], &word(7));
    assert_eq!(
        decode_args(&[ArgKind::AnyNewId], &buf),
        Some(vec![Arg::AnyNewId(4, "wl_seat".to_string(), 7)])
    );
}

#[test]
fn written_arguments_read_back() {
    let args = vec![
        Arg::Int(-300),
        Arg::Str("xdg_wm_base".to_string()),
        Arg::OptStr(None),
        Arg::Fixed(-256),
        Arg::Array(vec![9, 8, 7, 6, 5]),
        Arg::OptObject(Some(3)),
        Arg::Fd,
        Arg::AnyNewId(2, "".to_string(), 1),
        Arg::Uint(u32::MAX),
    ];
    let kinds = [
        ArgKind::Int,
        ArgKind::Str,
        ArgKind::OptStr,
        ArgKind::Fixed,
        ArgKind::Array,
        ArgKind::OptObject,
        ArgKind::Fd,
        ArgKind::AnyNewId,
        ArgKind::Uint,
    ];
    let mut buf = Vec::new();
    encode_args(&mut buf, &args);
    assert_eq!(buf.len() % 4, 0);
    assert_eq!(decode_args(&kinds, &buf), Some(args));
}

#[test]
fn optional_object_zero_reads_back_as_null() {
    let mut buf = Vec::new();
    encode_arg(&mut buf, &Arg::OptObject(Some(0)));
    assert_eq!(decode_args(&[ArgKind::OptObject], &buf), Some(vec![Arg::OptObject(None)]));
}

#[test]
fn a_written_request_is_read_back_whole() {
    let args = vec![Arg::Uint(7), Arg::Str("wl_compositor".to_string()), Arg::Uint(4), Arg::NewId(3)];
    let mut body = Vec::new();
    encode_args(&mut body, &args);
    let mut wire = Vec::new();
    encode_message(&mut wire, 2, 0, &body);
    let (msgs, rest) = parse_messages(wire);
    assert!(rest.is_empty());
    assert_eq!(msgs.len(), 1);
    assert_eq!((msgs[0].object_id.0, msgs[0].opcode), (2, 0));
    let kinds = [ArgKind::Uint, ArgKind::Str, ArgKind::Uint, ArgKind::NewId];
    assert_eq!(decode_args(&kinds, &msgs[0].data), Some(args));
}

#[test]
fn an_unknown_object_refuses_the_body() {
    let data = body(&[4]);
    assert_eq!(decode_args(&[ArgKind::Object], &data), None);
    assert_eq!(decode_args(&[ArgKind::OptObject], &data), None);
    assert_eq!(decode_args(&[ArgKind::AnyObject], &data), Some(vec![Arg::Object(4)]));
    assert_eq!(decode_args(&[ArgKind::OptAnyObject], &data), Some(vec![Arg::OptObject(Some(4))]));
}

#[test]
fn a_new_object_is_known_to_the_rest_of_the_body() {
    let data = body(&[20, 20]);
    assert_eq!(decode_args(&[ArgKind::NewId, ArgKind::Object], &data), Some(vec![Arg::NewId(20), Arg::Object(20)]));
    assert_eq!(decode_args(&[ArgKind::Object, ArgKind::NewId], &data), None);
}

#[test]
fn an_enum_value_must_be_in_its_table() {
    let states = vec![vec![0, 1], vec![2, 4, 8]];
    let objects = Objects::new();
    assert_eq!(decode_with(&[ArgKind::Enum(1)], &body(&[4]), &states, &objects, 0), Some(vec![Arg::Uint(4)]));
    assert_eq!(decode_with(&[ArgKind::Enum(1)], &body(&[3]), &states, &objects, 0), None);
    assert_eq!(decode_with(&[ArgKind::Enum(0)], &body(&[1]), &states, &objects, 0), Some(vec![Arg::Uint(1)]));
    assert_eq!(decode_with(&[ArgKind::Enum(2)], &body(&[1]), &states, &objects, 0), None, "no such table");
}

#[test]
fn a_bitfield_keeps_the_bits_it_names() {
    assert_eq!(decode_args(&[ArgKind::Bitfield(0b101)], &body(&[0b1111])), Some(vec![Arg::Uint(0b101)]));
}

#[test]
fn a_descriptor_that_did_not_arrive_refuses_the_body() {
    let objects = Objects::new();
    assert_eq!(decode_with(&[ArgKind::Fd], &[], &vec![], &objects, 0), None);
    assert_eq!(decode_with(&[ArgKind::Fd, ArgKind::Fd], &[], &vec![], &objects, 1), None);
    assert_eq!(decode_with(&[ArgKind::Fd], &[], &vec![], &objects, 1), Some(vec![Arg::Fd]));
}
