use bytes::{Buf, Bytes, BytesMut};
use moqtail::error::ParseError;
use moqtail::parameter::{FilterType, GroupOrder, Location, MessageParameter};
use moqtail::subscribe::{ControlMessageType, Subscribe};
use moqtail::tuple::{Tuple, TupleField};
use moqtail::varint::get_vi;

fn sample(params: Vec<MessageParameter>) -> Subscribe {
    Subscribe::new_absolute_range(
        128242,
        Tuple::from_utf8_path("nein/nein/nein"),
        TupleField::from_utf8("${Name}"),
        Location { group: 81, object: 81 },
        100,
        params,
    )
}

#[test]
fn test_roundtrip() {
    let subscribe = sample(vec![
        MessageParameter::new_subscriber_priority(31),
        MessageParameter::new_forward(false),
    ]);

    let mut buf = subscribe.serialize().unwrap();
    let msg_type = get_vi(&mut buf).unwrap();
    assert_eq!(msg_type, ControlMessageType::Subscribe.to_u64());
    let msg_length = buf.get_u16();
    assert_eq!(msg_length as usize, buf.remaining());
    let deserialized = Subscribe::parse_payload(&mut buf).unwrap();
    assert_eq!(*deserialized, subscribe);
    assert!(!buf.has_remaining());
}

#[test]
fn test_excess_roundtrip() {
    let subscribe = sample(vec![
        MessageParameter::new_subscriber_priority(31),
        MessageParameter::new_group_order(GroupOrder::Ascending),
        MessageParameter::new_forward(true),
    ]);

    let serialized = subscribe.serialize().unwrap();
    let mut excess = BytesMut::new();
    excess.extend_from_slice(&serialized);
    excess.extend_from_slice(&[9u8, 1u8, 1u8]);
    let mut buf = excess.freeze();

    let msg_type = get_vi(&mut buf).unwrap();
    assert_eq!(msg_type, ControlMessageType::Subscribe.to_u64());
    let msg_length = buf.get_u16();

    assert_eq!(msg_length as usize, buf.remaining() - 3);
    let deserialized = Subscribe::parse_payload(&mut buf).unwrap();
    assert_eq!(*deserialized, subscribe);
    assert_eq!(buf.chunk(), &[9u8, 1u8, 1u8]);
}

#[test]
fn test_partial_message() {
    let subscribe = sample(vec![
        MessageParameter::new_subscriber_priority(31),
        MessageParameter::new_group_order(GroupOrder::Ascending),
        MessageParameter::new_forward(true),
    ]);

    let mut buf = subscribe.serialize().unwrap();
    let msg_type = get_vi(&mut buf).unwrap();
    assert_eq!(msg_type, ControlMessageType::Subscribe.to_u64());
    let msg_length = buf.get_u16();
    assert_eq!(msg_length as usize, buf.remaining());

    let upper = buf.remaining() / 2;
    let mut partial = buf.slice(..upper);
    let deserialized = Subscribe::parse_payload(&mut partial);
    assert!(deserialized.is_err());
}

#[test]
fn serialize_gives_exact_bytes() {
    let subscribe = sample(vec![
        MessageParameter::new_subscriber_priority(31),
        MessageParameter::new_forward(false),
    ]);
    let bytes = subscribe.serialize().unwrap();
    let expected: Vec<u8> = vec![
        3, 0, 42, 128, 1, 244, 242, 3, 4, 110, 101, 105, 110, 4, 110, 101, 105, 110, 4, 110, 101,
        105, 110, 7, 36, 123, 78, 97, 109, 101, 125, 3, 32, 31, 16, 0, 33, 7, 4, 64, 81, 64, 81,
        64, 100,
    ];
    assert_eq!(bytes.to_vec(), expected);
}

#[test]
fn every_strict_prefix_is_rejected() {
    let subscribe = sample(vec![MessageParameter::new_largest_object(Location::new(5, 300))]);
    let full = subscribe.serialize().unwrap();
    let payload = full.slice(3..);
    for k in 0..payload.len() {
        let mut part = payload.slice(..k);
        assert!(Subscribe::parse_payload(&mut part).is_err(), "prefix {} parsed", k);
    }
    let mut whole = payload.clone();
    assert_eq!(*Subscribe::parse_payload(&mut whole).unwrap(), subscribe);
}

#[test]
fn every_filter_shape_roundtrips() {
    let ns = || Tuple::from_utf8_path("a/b");
    let name = || TupleField::from_utf8("t");
    let msgs = vec![
        Subscribe::new_next_group_start(1, ns(), name(), vec![]),
        Subscribe::new_latest_object(2, ns(), name(), vec![]),
        Subscribe::new_absolute_start(3, ns(), name(), Location::new(7, 8), vec![]),
        Subscribe::new_absolute_range(4, ns(), name(), Location::new(7, 8), 9, vec![]),
        Subscribe::new(
            (1u64 << 62) - 1,
            ns(),
            name(),
            vec![
                MessageParameter::new_group_order(GroupOrder::Original),
                MessageParameter::new_group_order(GroupOrder::Descending),
                MessageParameter::new_subscriber_priority(255),
                MessageParameter::new_largest_object(Location::new(1 << 40, 16384)),
            ],
        ),
    ];
    for m in msgs {
        let mut b = m.serialize().unwrap();
        assert_eq!(get_vi(&mut b).unwrap(), 3);
        let len = b.get_u16() as usize;
        assert_eq!(len, b.remaining());
        assert_eq!(*Subscribe::parse_payload(&mut b).unwrap(), m);
    }
}

#[test]
fn serialize_rejects_request_id_out_of_range() {
    let m = Subscribe::new(1u64 << 62, Tuple::new(), TupleField::from_utf8(""), vec![]);
    assert_eq!(m.serialize(), Err(ParseError::VarIntOverflow { value: 1u64 << 62 }));
}

#[test]
fn serialize_rejects_location_out_of_range() {
    let m = Subscribe::new_absolute_start(
        1,
        Tuple::new(),
        TupleField::from_utf8("x"),
        Location::new(u64::MAX, 0),
        vec![],
    );
    assert_eq!(m.serialize(), Err(ParseError::VarIntOverflow { value: u64::MAX }));
}

#[test]
fn serialize_rejects_oversized_payload() {
    let m = Subscribe::new(1, Tuple::new(), TupleField::new(vec![7u8; 70000]), vec![]);
    let details = u16::try_from(70003usize).unwrap_err().to_string();
    assert_eq!(
        m.serialize(),
        Err(ParseError::CastingError {
            context: "Subscribe::serialize",
            from_type: "usize",
            to_type: "u16",
            details,
        })
    );
    let fits = Subscribe::new(1, Tuple::new(), TupleField::new(vec![7u8; 65000]), vec![]);
    let mut b = fits.serialize().unwrap();
    get_vi(&mut b).unwrap();
    assert_eq!(b.get_u16() as usize, b.remaining());
}

fn parse(bytes: &[u8]) -> Result<Subscribe, ParseError> {
    let mut b = Bytes::copy_from_slice(bytes);
    Subscribe::parse_payload(&mut b).map(|m| *m)
}

#[test]
fn parse_reports_each_error() {
    // request 1, empty namespace, name "x", then one parameter
    let head = [1u8, 0, 1, b'x', 1];
    let with = |tail: &[u8]| {
        let mut v = head.to_vec();
        v.extend_from_slice(tail);
        parse(&v)
    };
    assert_eq!(with(&[0x05, 0]), Err(ParseError::UnknownParameter { type_code: 5 }));
    assert_eq!(with(&[0x10, 2]), Err(ParseError::InvalidValue { value: 2 }));
    assert_eq!(with(&[0x20, 0x41, 0x00]), Err(ParseError::InvalidValue { value: 256 }));
    assert_eq!(with(&[0x22, 3]), Err(ParseError::InvalidGroupOrder { value: 3 }));
    assert_eq!(with(&[0x21, 1, 5]), Err(ParseError::InvalidFilterType { value: 5 }));
    assert_eq!(with(&[0x21, 2, 1, 0]), Err(ParseError::LengthMismatch { expected: 2, actual: 1 }));
    assert_eq!(with(&[0x21, 4, 1]), Err(ParseError::NotEnoughBytes { context: "parse_param", needed: 4, available: 1 }));
    assert_eq!(with(&[0x09, 2, 0x40]), Err(ParseError::NotEnoughBytes { context: "parse_param", needed: 2, available: 1 }));
    assert_eq!(
        parse(&[]),
        Err(ParseError::NotEnoughBytes { context: "get_vi", needed: 1, available: 0 })
    );
    assert_eq!(
        parse(&[1, 0, 3, b'x']),
        Err(ParseError::NotEnoughBytes {
            context: "Subscribe::parse_payload(track_name)",
            needed: 3,
            available: 1,
        })
    );
    let ok = with(&[0x10, 1]).unwrap();
    assert_eq!(ok.subscribe_parameters, vec![MessageParameter::Forward { forward: true }]);
    assert_eq!(ok.track_name.as_bytes(), b"x");
}

#[test]
fn parse_accepts_longer_varint_forms() {
    // request id 5 written on two bytes, name length 0 written on four bytes
    let m = parse(&[0x40, 5, 0, 0x80, 0, 0, 0, 0]).unwrap();
    assert_eq!(m.request_id, 5);
    assert_eq!(m.track_name.len(), 0);
    assert_eq!(m.subscribe_parameters.len(), 0);
}

#[test]
fn subscription_filter_is_reported() {
    let ns = || Tuple::from_utf8_path("n");
    let name = || TupleField::from_utf8("t");
    assert_eq!(Subscribe::new(1, ns(), name(), vec![]).get_subscription_filter(), None);
    assert_eq!(
        Subscribe::new_next_group_start(1, ns(), name(), vec![]).get_subscription_filter(),
        Some((FilterType::NextGroupStart, None, None))
    );
    assert_eq!(
        Subscribe::new_latest_object(1, ns(), name(), vec![]).get_subscription_filter(),
        Some((FilterType::LatestObject, None, None))
    );
    assert_eq!(
        Subscribe::new_absolute_start(1, ns(), name(), Location::new(2, 3), vec![])
            .get_subscription_filter(),
        Some((FilterType::AbsoluteStart, Some(Location::new(2, 3)), None))
    );
    let m = sample(vec![MessageParameter::new_forward(true)]);
    assert_eq!(
        m.get_subscription_filter(),
        Some((FilterType::AbsoluteRange, Some(Location { group: 81, object: 81 }), Some(100)))
    );
    // the first filter wins
    let first = Subscribe::new_latest_object(
        1,
        ns(),
        name(),
        vec![MessageParameter::new_subscription_filter(FilterType::NextGroupStart, None, None)],
    );
    assert_eq!(first.get_subscription_filter(), Some((FilterType::NextGroupStart, None, None)));
    assert_eq!(first.subscribe_parameters.len(), 2);
}

#[test]
fn full_track_name_and_type() {
    let m = sample(vec![]);
    let full = m.get_full_track_name();
    assert_eq!(full.namespace, Tuple::from_utf8_path("nein/nein/nein"));
    assert_eq!(full.name.as_bytes(), b"${Name}");
    assert_eq!(m.get_type(), ControlMessageType::Subscribe);
}
