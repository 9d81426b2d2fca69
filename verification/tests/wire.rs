use bytes::Bytes;
use moqtail::error::ParseError;
use moqtail::parameter::{deserialize_message_parameters, parse_param, MessageParameter};
use moqtail::tuple::{Tuple, TupleField};
use moqtail::varint::get_vi;

fn read_vi(bytes: &[u8]) -> (Result<u64, ParseError>, usize) {
    let mut b = Bytes::copy_from_slice(bytes);
    let r = get_vi(&mut b);
    (r, b.len())
}

#[test]
fn varint_reads_each_width() {
    assert_eq!(read_vi(&[0x25, 9]), (Ok(37), 1));
    assert_eq!(read_vi(&[0x7b, 0xbd]), (Ok(15293), 0));
    assert_eq!(read_vi(&[0x9d, 0x7f, 0x3e, 0x7d]), (Ok(494878333), 0));
    assert_eq!(
        read_vi(&[0xc2, 0x19, 0x7c, 0x5e, 0xff, 0x14, 0xe8, 0x8c]),
        (Ok(151288809941952652), 0)
    );
    assert_eq!(read_vi(&[0xff; 8]), (Ok((1u64 << 62) - 1), 0));
}

#[test]
fn varint_reports_short_input() {
    assert_eq!(read_vi(&[]).0, Err(ParseError::NotEnoughBytes { context: "get_vi", needed: 1, available: 0 }));
    assert_eq!(read_vi(&[0x40]).0, Err(ParseError::NotEnoughBytes { context: "get_vi", needed: 2, available: 1 }));
    assert_eq!(
        read_vi(&[0xc0, 1, 2]).0,
        Err(ParseError::NotEnoughBytes { context: "get_vi", needed: 8, available: 3 })
    );
}

#[test]
fn tuple_paths_split_like_str_split() {
    let t = Tuple::from_utf8_path("a//bc");
    let parts: Vec<&[u8]> = t.fields.iter().map(|f| f.as_bytes()).collect();
    assert_eq!(parts, vec![&b"a"[..], &b""[..], &b"bc"[..]]);
    assert_eq!(Tuple::from_utf8_path("").len(), 1);
    assert_eq!(Tuple::from_utf8_path("/").len(), 2);
    let mut t = Tuple::new();
    t.add(TupleField::from_utf8("é"));
    assert_eq!(t.fields[0].as_bytes(), "é".as_bytes());
    assert_eq!(t.clone(), t);
}

#[test]
fn tuple_roundtrips() {
    let t = Tuple::from_utf8_path("live/room/7");
    let mut buf = bytes::BytesMut::new();
    let check = t.check();
    assert_eq!(check, Ok(()));
    // encode by hand: count, then length-prefixed fields
    buf.extend_from_slice(&[3, 4]);
    buf.extend_from_slice(b"live");
    buf.extend_from_slice(&[4]);
    buf.extend_from_slice(b"room");
    buf.extend_from_slice(&[1, b'7', 0xAA]);
    let mut b = buf.freeze();
    assert_eq!(Tuple::deserialize(&mut b).unwrap(), t);
    assert_eq!(b.to_vec(), vec![0xAA]);
}

#[test]
fn parameters_read_in_order() {
    let mut b = Bytes::from_static(&[0x20, 7, 0x10, 1, 0x22, 2, 0xEE]);
    let ps = deserialize_message_parameters(&mut b, 3).unwrap();
    assert_eq!(ps.len(), 3);
    assert_eq!(ps[0], MessageParameter::new_subscriber_priority(7));
    assert_eq!(ps[1], MessageParameter::new_forward(true));
    assert_eq!(b.to_vec(), vec![0xEE]);
    let mut b = Bytes::from_static(&[0x20, 7]);
    assert!(deserialize_message_parameters(&mut b, 2).is_err());
    let mut b = Bytes::from_static(&[0x09, 2, 3, 4, 0x77]);
    assert_eq!(
        parse_param(&mut b).unwrap(),
        MessageParameter::LargestObject { location: moqtail::parameter::Location::new(3, 4) }
    );
    assert_eq!(b.to_vec(), vec![0x77]);
}

#[test]
fn parameter_lengths_match_encodings() {
    let p = MessageParameter::new_largest_object(moqtail::parameter::Location::new(70000, 1));
    assert_eq!(p.check(), Ok(()));
    assert_eq!(p.encoded_len(), 7);
    let mut buf = bytes::BytesMut::new();
    p.serialize_into(&mut buf);
    assert_eq!(buf.to_vec(), vec![0x09, 5, 0x80, 0x01, 0x11, 0x70, 1]);
}

#[test]
fn new_buffer_starts_empty() {
    let mut b = moqtail::buffer::new_buffer();
    assert!(b.is_empty());
    moqtail::varint::put_vi(&mut b, 300);
    assert_eq!(b.to_vec(), vec![0x41, 0x2c]);
}
