//! Message parameters: the key-value pairs that follow a control message's fixed
//! fields. An even type carries one variable-length integer; an odd type carries a
//! length followed by that many bytes.
use crate::buffer::{bytes_mut_view, bytes_remaining, bytes_split_front, bytes_view};
use crate::error::ParseError;
use crate::varint::{
    check_vi, get_vi, is_suffix_of, lemma_get_vi_len, lemma_skip_skip, lemma_suffix_of_skip, lemma_vi_extend,
    lemma_vi_len, lemma_vi_roundtrip, put_vi, spec_get_vi, spec_vi, spec_vi_checked, vi_len,
    varint_limit,
};
use bytes::{Bytes, BytesMut};
use vstd::prelude::*;

verus! {

/// The position of an object in a track.
#[derive(Debug, Clone, Copy, PartialEq, Eq)]
pub struct Location {
    pub group: u64,
    pub object: u64,
}

impl Location {
    pub fn new(group: u64, object: u64) -> (r: Location)
        ensures
            r == (Location { group, object }),
    {
        Location { group, object }
    }
}

/// Where a subscription starts (and, for a range, ends).
#[derive(Debug, Clone, Copy, PartialEq, Eq)]
pub enum FilterType {
    NextGroupStart,
    LatestObject,
    AbsoluteStart,
    AbsoluteRange,
}

/// The order in which groups are delivered.
#[derive(Debug, Clone, Copy, PartialEq, Eq)]
pub enum GroupOrder {
    Original,
    Ascending,
    Descending,
}

/// A message parameter.
#[derive(Debug, Clone, Copy, PartialEq, Eq)]
pub enum MessageParameter {
    Forward { forward: bool },
    SubscriberPriority { priority: u8 },
    GroupOrder { order: GroupOrder },
    LargestObject { location: Location },
    SubscriptionFilter {
        filter_type: FilterType,
        start_location: Option<Location>,
        end_group: Option<u64>,
    },
}

pub open spec fn forward_type() -> u64 {
    0x10
}

pub open spec fn subscriber_priority_type() -> u64 {
    0x20
}

pub open spec fn group_order_type() -> u64 {
    0x22
}

pub open spec fn largest_object_type() -> u64 {
    0x09
}

pub open spec fn subscription_filter_type() -> u64 {
    0x21
}

/// The wire code of a filter type.
pub open spec fn filter_code(f: FilterType) -> u64 {
    match f {
        FilterType::NextGroupStart => 1,
        FilterType::LatestObject => 2,
        FilterType::AbsoluteStart => 3,
        FilterType::AbsoluteRange => 4,
    }
}

/// The filter type of a wire code in 1..=4.
pub open spec fn filter_of_code(c: u64) -> FilterType {
    if c == 1 {
        FilterType::NextGroupStart
    } else if c == 2 {
        FilterType::LatestObject
    } else if c == 3 {
        FilterType::AbsoluteStart
    } else {
        FilterType::AbsoluteRange
    }
}

/// The wire code of a group order.
pub open spec fn group_order_code(o: GroupOrder) -> u64 {
    match o {
        GroupOrder::Original => 0,
        GroupOrder::Ascending => 1,
        GroupOrder::Descending => 2,
    }
}

/// The group order of a wire code in 0..=2.
pub open spec fn group_order_of_code(c: u64) -> GroupOrder {
    if c == 0 {
        GroupOrder::Original
    } else if c == 1 {
        GroupOrder::Ascending
    } else {
        GroupOrder::Descending
    }
}

/// A filter carries a start location exactly when it is absolute, and an end group
/// exactly when it is a range: the shape the constructors build and the decoder reads.
pub open spec fn param_wf(p: MessageParameter) -> bool {
    match p {
        MessageParameter::SubscriptionFilter { filter_type, start_location, end_group } => {
            &&& (start_location is Some) == (filter_type == FilterType::AbsoluteStart
                || filter_type == FilterType::AbsoluteRange)
            &&& (end_group is Some) == (filter_type == FilterType::AbsoluteRange)
        },
        _ => true,
    }
}

pub open spec fn spec_location(l: Location) -> Seq<u8> {
    spec_vi(l.group) + spec_vi(l.object)
}

pub open spec fn spec_filter_body(
    filter_type: FilterType,
    start_location: Option<Location>,
    end_group: Option<u64>,
) -> Seq<u8> {
    spec_vi(filter_code(filter_type)) + match start_location {
        Some(l) => spec_location(l),
        None => Seq::<u8>::empty(),
    } + match end_group {
        Some(e) => spec_vi(e),
        None => Seq::<u8>::empty(),
    }
}

/// The encoding of one parameter.
pub open spec fn spec_param(p: MessageParameter) -> Seq<u8> {
    match p {
        MessageParameter::Forward { forward } => spec_vi(forward_type()) + spec_vi(
            if forward {
                1
            } else {
                0
            },
        ),
        MessageParameter::SubscriberPriority { priority } => spec_vi(subscriber_priority_type())
            + spec_vi(priority as u64),
        MessageParameter::GroupOrder { order } => spec_vi(group_order_type()) + spec_vi(
            group_order_code(order),
        ),
        MessageParameter::LargestObject { location } => spec_vi(largest_object_type()) + spec_vi(
            spec_location(location).len() as u64,
        ) + spec_location(location),
        MessageParameter::SubscriptionFilter { filter_type, start_location, end_group } => {
            let body = spec_filter_body(filter_type, start_location, end_group);
            spec_vi(subscription_filter_type()) + spec_vi(body.len() as u64) + body
        },
    }
}

/// The first value of a location that cannot be encoded, as the encoder reports it.
pub open spec fn spec_location_check(l: Location) -> Result<(), ParseError> {
    if spec_vi_checked(l.group) is Err {
        spec_vi_checked(l.group)
    } else {
        spec_vi_checked(l.object)
    }
}

/// The first value of a parameter that cannot be encoded, in encoding order.
pub open spec fn spec_param_check(p: MessageParameter) -> Result<(), ParseError> {
    match p {
        MessageParameter::LargestObject { location } => spec_location_check(location),
        MessageParameter::SubscriptionFilter { filter_type, start_location, end_group } => {
            let s = match start_location {
                Some(l) => spec_location_check(l),
                None => Ok(()),
            };
            if s is Err {
                s
            } else {
                match end_group {
                    Some(e) => spec_vi_checked(e),
                    None => Ok(()),
                }
            }
        },
        _ => Ok(()),
    }
}

/// Reads a location.
pub open spec fn spec_parse_location(s: Seq<u8>) -> Result<(Location, nat), ParseError> {
    match spec_get_vi(s) {
        Err(e) => Err(e),
        Ok((g, n1)) => match spec_get_vi(s.skip(n1 as int)) {
            Err(e) => Err(e),
            Ok((o, n2)) => Ok((Location { group: g, object: o }, n1 + n2)),
        },
    }
}

/// Reads the body of a subscription filter.
pub open spec fn spec_parse_filter_body(b: Seq<u8>) -> Result<(MessageParameter, nat), ParseError> {
    match spec_get_vi(b) {
        Err(e) => Err(e),
        Ok((c, n1)) => if c < 1 || c > 4 {
            Err(ParseError::InvalidFilterType { value: c })
        } else if c <= 2 {
            Ok(
                (
                    MessageParameter::SubscriptionFilter {
                        filter_type: filter_of_code(c),
                        start_location: None,
                        end_group: None,
                    },
                    n1,
                ),
            )
        } else {
            match spec_parse_location(b.skip(n1 as int)) {
                Err(e) => Err(e),
                Ok((l, n2)) => if c == 3 {
                    Ok(
                        (
                            MessageParameter::SubscriptionFilter {
                                filter_type: FilterType::AbsoluteStart,
                                start_location: Some(l),
                                end_group: None,
                            },
                            n1 + n2,
                        ),
                    )
                } else {
                    match spec_get_vi(b.skip((n1 + n2) as int)) {
                        Err(e) => Err(e),
                        Ok((eg, n3)) => Ok(
                            (
                                MessageParameter::SubscriptionFilter {
                                    filter_type: FilterType::AbsoluteRange,
                                    start_location: Some(l),
                                    end_group: Some(eg),
                                },
                                n1 + n2 + n3,
                            ),
                        ),
                    }
                },
            }
        },
    }
}

/// Reads the body of a length-prefixed parameter of type `t`.
pub open spec fn spec_parse_body(t: u64, b: Seq<u8>) -> Result<(MessageParameter, nat), ParseError> {
    if t == largest_object_type() {
        match spec_parse_location(b) {
            Err(e) => Err(e),
            Ok((l, n)) => Ok((MessageParameter::LargestObject { location: l }, n)),
        }
    } else {
        spec_parse_filter_body(b)
    }
}

/// Reads the value of an even-typed parameter of type `t` whose value is `v`.
pub open spec fn spec_param_of_value(t: u64, v: u64) -> Result<MessageParameter, ParseError> {
    if t == forward_type() {
        if v == 0 {
            Ok(MessageParameter::Forward { forward: false })
        } else if v == 1 {
            Ok(MessageParameter::Forward { forward: true })
        } else {
            Err(ParseError::InvalidValue { value: v })
        }
    } else if t == subscriber_priority_type() {
        if v <= 255 {
            Ok(MessageParameter::SubscriberPriority { priority: v as u8 })
        } else {
            Err(ParseError::InvalidValue { value: v })
        }
    } else {
        if v <= 2 {
            Ok(MessageParameter::GroupOrder { order: group_order_of_code(v) })
        } else {
            Err(ParseError::InvalidGroupOrder { value: v })
        }
    }
}

/// Reads one parameter from the front of `s`: the parameter and the bytes it took.
#[verifier::opaque]
pub open spec fn spec_parse_param(s: Seq<u8>) -> Result<(MessageParameter, nat), ParseError> {
    match spec_get_vi(s) {
        Err(e) => Err(e),
        Ok((t, n1)) => {
            let r = s.skip(n1 as int);
            if t == forward_type() || t == subscriber_priority_type() || t == group_order_type() {
                match spec_get_vi(r) {
                    Err(e) => Err(e),
                    Ok((v, n2)) => match spec_param_of_value(t, v) {
                        Err(e) => Err(e),
                        Ok(p) => Ok((p, n1 + n2)),
                    },
                }
            } else if t == largest_object_type() || t == subscription_filter_type() {
                match spec_get_vi(r) {
                    Err(e) => Err(e),
                    Ok((len, n2)) => {
                        let r2 = r.skip(n2 as int);
                        if r2.len() < len {
                            Err(
                                ParseError::NotEnoughBytes {
                                    context: "parse_param",
                                    needed: len as usize,
                                    available: r2.len() as usize,
                                },
                            )
                        } else {
                            match spec_parse_body(t, r2.take(len as int)) {
                                Err(e) => Err(e),
                                Ok((p, used)) => if used != len {
                                    Err(ParseError::LengthMismatch { expected: len, actual: used as u64 })
                                } else {
                                    Ok((p, n1 + n2 + len as nat))
                                },
                            }
                        }
                    },
                }
            } else {
                Err(ParseError::UnknownParameter { type_code: t })
            }
        },
    }
}

/// The encoding of a list of parameters, one after the other.
pub open spec fn spec_params(ps: Seq<MessageParameter>) -> Seq<u8>
    decreases ps.len(),
{
    if ps.len() == 0 {
        Seq::<u8>::empty()
    } else {
        spec_param(ps[0]) + spec_params(ps.drop_first())
    }
}

/// The first value in a list of parameters that cannot be encoded.
pub open spec fn spec_params_check(ps: Seq<MessageParameter>) -> Result<(), ParseError>
    decreases ps.len(),
{
    if ps.len() == 0 {
        Ok(())
    } else if spec_param_check(ps[0]) is Err {
        spec_param_check(ps[0])
    } else {
        spec_params_check(ps.drop_first())
    }
}

/// Every parameter of the list is well formed.
pub open spec fn params_wf(ps: Seq<MessageParameter>) -> bool {
    forall|i: int| 0 <= i < ps.len() ==> param_wf(#[trigger] ps[i])
}

/// Reads `count` parameters from the front of `s`.
pub open spec fn spec_parse_params(s: Seq<u8>, count: nat) -> Result<
    (Seq<MessageParameter>, nat),
    ParseError,
>
    decreases count,
{
    if count == 0 {
        Ok((Seq::<MessageParameter>::empty(), 0))
    } else {
        match spec_parse_param(s) {
            Err(e) => Err(e),
            Ok((p, n)) => match spec_parse_params(s.skip(n as int), (count - 1) as nat) {
                Err(e) => Err(e),
                Ok((ps, m)) => Ok((seq![p] + ps, n + m)),
            },
        }
    }
}

impl MessageParameter {
    pub fn new_forward(forward: bool) -> (r: MessageParameter)
        ensures
            r == (MessageParameter::Forward { forward }),
    {
        MessageParameter::Forward { forward }
    }

    pub fn new_subscriber_priority(priority: u8) -> (r: MessageParameter)
        ensures
            r == (MessageParameter::SubscriberPriority { priority }),
    {
        MessageParameter::SubscriberPriority { priority }
    }

    pub fn new_group_order(order: GroupOrder) -> (r: MessageParameter)
        ensures
            r == (MessageParameter::GroupOrder { order }),
    {
        MessageParameter::GroupOrder { order }
    }

    pub fn new_largest_object(location: Location) -> (r: MessageParameter)
        ensures
            r == (MessageParameter::LargestObject { location }),
    {
        MessageParameter::LargestObject { location }
    }

    pub fn new_subscription_filter(
        filter_type: FilterType,
        start_location: Option<Location>,
        end_group: Option<u64>,
    ) -> (r: MessageParameter)
        ensures
            r == (MessageParameter::SubscriptionFilter { filter_type, start_location, end_group }),
    {
        MessageParameter::SubscriptionFilter { filter_type, start_location, end_group }
    }
}


fn filter_code_of(f: FilterType) -> (r: u64)
    ensures
        r == filter_code(f),
{
    match f {
        FilterType::NextGroupStart => 1,
        FilterType::LatestObject => 2,
        FilterType::AbsoluteStart => 3,
        FilterType::AbsoluteRange => 4,
    }
}

fn group_order_code_of(o: GroupOrder) -> (r: u64)
    ensures
        r == group_order_code(o),
{
    match o {
        GroupOrder::Original => 0,
        GroupOrder::Ascending => 1,
        GroupOrder::Descending => 2,
    }
}

fn check_location(l: Location) -> (r: Result<(), ParseError>)
    ensures
        r == spec_location_check(l),
{
    match check_vi(l.group) {
        Err(e) => Err(e),
        Ok(()) => check_vi(l.object),
    }
}

impl MessageParameter {
    /// The first value of this parameter that cannot be encoded, in encoding order.
    pub fn check(&self) -> (r: Result<(), ParseError>)
        ensures
            r == spec_param_check(*self),
    {
        match *self {
            MessageParameter::LargestObject { location } => check_location(location),
            MessageParameter::SubscriptionFilter { filter_type, start_location, end_group } => {
                match start_location {
                    Some(l) => {
                        match check_location(l) {
                            Err(e) => {
                                return Err(e);
                            },
                            Ok(()) => {},
                        }
                    },
                    None => {},
                }
                match end_group {
                    Some(e) => check_vi(e),
                    None => Ok(()),
                }
            },
            _ => Ok(()),
        }
    }

    /// The length of this parameter's encoding.
    pub fn encoded_len(&self) -> (r: usize)
        requires
            spec_param_check(*self) is Ok,
        ensures
            r as int == spec_param(*self).len(),
            r <= 32,
    {
        match *self {
            MessageParameter::Forward { forward } => 2,
            MessageParameter::SubscriberPriority { priority } => 1 + vi_len(priority as u64),
            MessageParameter::GroupOrder { order } => 2,
            MessageParameter::LargestObject { location } => 2 + vi_len(location.group) + vi_len(
                location.object,
            ),
            MessageParameter::SubscriptionFilter { filter_type, start_location, end_group } => {
                let mut n: usize = 3;
                match start_location {
                    Some(l) => {
                        n = n + vi_len(l.group) + vi_len(l.object);
                    },
                    None => {},
                }
                match end_group {
                    Some(e) => {
                        n = n + vi_len(e);
                    },
                    None => {},
                }
                n
            },
        }
    }

    /// Appends this parameter's encoding to `buf`.
    pub fn serialize_into(&self, buf: &mut BytesMut)
        requires
            spec_param_check(*self) is Ok,
            bytes_mut_view(*old(buf)).len() + 64 <= isize::MAX,
        ensures
            bytes_mut_view(*final(buf)) == bytes_mut_view(*old(buf)) + spec_param(*self),
    {
        let ghost s = bytes_mut_view(*buf);
        match *self {
            MessageParameter::Forward { forward } => {
                put_vi(buf, 0x10);
                put_vi(
                    buf,
                    if forward {
                        1
                    } else {
                        0
                    },
                );
                assert(bytes_mut_view(*buf) =~= s + spec_param(*self));
            },
            MessageParameter::SubscriberPriority { priority } => {
                put_vi(buf, 0x20);
                put_vi(buf, priority as u64);
                assert(bytes_mut_view(*buf) =~= s + spec_param(*self));
            },
            MessageParameter::GroupOrder { order } => {
                put_vi(buf, 0x22);
                put_vi(buf, group_order_code_of(order));
                assert(bytes_mut_view(*buf) =~= s + spec_param(*self));
            },
            MessageParameter::LargestObject { location } => {
                let len = vi_len(location.group) + vi_len(location.object);
                put_vi(buf, 0x09);
                put_vi(buf, len as u64);
                put_location(buf, location);
                assert(bytes_mut_view(*buf) =~= s + spec_param(*self));
            },
            MessageParameter::SubscriptionFilter { filter_type, start_location, end_group } => {
                put_filter(buf, filter_type, start_location, end_group);
            },
        }
    }
}

fn put_location(buf: &mut BytesMut, l: Location)
    requires
        spec_location_check(l) is Ok,
        bytes_mut_view(*old(buf)).len() + 16 <= isize::MAX,
    ensures
        bytes_mut_view(*final(buf)) == bytes_mut_view(*old(buf)) + spec_location(l),
{
    let ghost s = bytes_mut_view(*buf);
    put_vi(buf, l.group);
    put_vi(buf, l.object);
    assert(bytes_mut_view(*buf) =~= s + spec_location(l));
}

fn put_filter(
    buf: &mut BytesMut,
    filter_type: FilterType,
    start_location: Option<Location>,
    end_group: Option<u64>,
)
    requires
        spec_param_check(
            MessageParameter::SubscriptionFilter { filter_type, start_location, end_group },
        ) is Ok,
        bytes_mut_view(*old(buf)).len() + 64 <= isize::MAX,
    ensures
        bytes_mut_view(*final(buf)) == bytes_mut_view(*old(buf)) + spec_param(
            MessageParameter::SubscriptionFilter { filter_type, start_location, end_group },
        ),
{
    let ghost s = bytes_mut_view(*buf);
    let ghost body = spec_filter_body(filter_type, start_location, end_group);
    let mut len: usize = 1;
    match start_location {
        Some(l) => {
            len = len + vi_len(l.group) + vi_len(l.object);
        },
        None => {},
    }
    match end_group {
        Some(e) => {
            len = len + vi_len(e);
        },
        None => {},
    }
    assert(len as int == body.len());
    put_vi(buf, 0x21);
    put_vi(buf, len as u64);
    let ghost head = bytes_mut_view(*buf);
    put_vi(buf, filter_code_of(filter_type));
    let ghost mid = bytes_mut_view(*buf);
    match start_location {
        Some(l) => {
            put_location(buf, l);
        },
        None => {},
    }
    let ghost mid2 = bytes_mut_view(*buf);
    match end_group {
        Some(e) => {
            put_vi(buf, e);
        },
        None => {},
    }
    assert(bytes_mut_view(*buf) =~= head + body);
    assert(head =~= s + spec_vi(0x21) + spec_vi(len as u64));
}

fn parse_location(buf: &mut Bytes) -> (r: Result<Location, ParseError>)
    ensures
        match spec_parse_location(bytes_view(*old(buf))) {
            Ok((l, n)) => r == Ok::<Location, ParseError>(l) && bytes_view(*final(buf))
                == bytes_view(*old(buf)).skip(n as int),
            Err(e) => r == Err::<Location, ParseError>(e) && is_suffix_of(
                bytes_view(*final(buf)),
                bytes_view(*old(buf)),
            ),
        },
{
    let ghost s = bytes_view(*buf);
    let g = match get_vi(buf) {
        Ok(v) => v,
        Err(e) => {
            return Err(e);
        },
    };
    let ghost n1 = spec_get_vi(s)->Ok_0.1;
    let o = match get_vi(buf) {
        Ok(v) => v,
        Err(e) => {
            proof {
                lemma_suffix_of_skip(bytes_view(*buf), s, n1 as int);
            }
            return Err(e);
        },
    };
    proof {
        let n2 = spec_get_vi(s.skip(n1 as int))->Ok_0.1;
        lemma_skip_skip(s, n1 as int, n2 as int);
    }
    Ok(Location { group: g, object: o })
}

fn param_of_value(t: u64, v: u64) -> (r: Result<MessageParameter, ParseError>)
    ensures
        r == spec_param_of_value(t, v),
{
    if t == 0x10 {
        if v == 0 {
            Ok(MessageParameter::Forward { forward: false })
        } else if v == 1 {
            Ok(MessageParameter::Forward { forward: true })
        } else {
            Err(ParseError::InvalidValue { value: v })
        }
    } else if t == 0x20 {
        if v <= 255 {
            Ok(MessageParameter::SubscriberPriority { priority: v as u8 })
        } else {
            Err(ParseError::InvalidValue { value: v })
        }
    } else {
        if v == 0 {
            Ok(MessageParameter::GroupOrder { order: GroupOrder::Original })
        } else if v == 1 {
            Ok(MessageParameter::GroupOrder { order: GroupOrder::Ascending })
        } else if v == 2 {
            Ok(MessageParameter::GroupOrder { order: GroupOrder::Descending })
        } else {
            Err(ParseError::InvalidGroupOrder { value: v })
        }
    }
}

fn parse_filter_body(buf: &mut Bytes) -> (r: Result<MessageParameter, ParseError>)
    ensures
        match spec_parse_filter_body(bytes_view(*old(buf))) {
            Ok((p, n)) => r == Ok::<MessageParameter, ParseError>(p) && bytes_view(*final(buf))
                == bytes_view(*old(buf)).skip(n as int),
            Err(e) => r == Err::<MessageParameter, ParseError>(e) && is_suffix_of(
                bytes_view(*final(buf)),
                bytes_view(*old(buf)),
            ),
        },
{
    let ghost s = bytes_view(*buf);
    let c = match get_vi(buf) {
        Ok(v) => v,
        Err(e) => {
            return Err(e);
        },
    };
    let ghost n1 = spec_get_vi(s)->Ok_0.1;
    if c < 1 || c > 4 {
        assert(bytes_view(*buf) == s.skip(n1 as int));
        return Err(ParseError::InvalidFilterType { value: c });
    }
    if c == 1 {
        return Ok(
            MessageParameter::SubscriptionFilter {
                filter_type: FilterType::NextGroupStart,
                start_location: None,
                end_group: None,
            },
        );
    }
    if c == 2 {
        return Ok(
            MessageParameter::SubscriptionFilter {
                filter_type: FilterType::LatestObject,
                start_location: None,
                end_group: None,
            },
        );
    }
    let l = match parse_location(buf) {
        Ok(l) => l,
        Err(e) => {
            proof {
                lemma_suffix_of_skip(bytes_view(*buf), s, n1 as int);
            }
            return Err(e);
        },
    };
    let ghost n2 = spec_parse_location(s.skip(n1 as int))->Ok_0.1;
    proof {
        lemma_parse_location_len(s.skip(n1 as int));
        lemma_skip_skip(s, n1 as int, n2 as int);
    }
    if c == 3 {
        return Ok(
            MessageParameter::SubscriptionFilter {
                filter_type: FilterType::AbsoluteStart,
                start_location: Some(l),
                end_group: None,
            },
        );
    }
    let eg = match get_vi(buf) {
        Ok(v) => v,
        Err(e) => {
            proof {
                lemma_suffix_of_skip(bytes_view(*buf), s, (n1 + n2) as int);
            }
            return Err(e);
        },
    };
    proof {
        let n3 = spec_get_vi(s.skip((n1 + n2) as int))->Ok_0.1;
        lemma_skip_skip(s, (n1 + n2) as int, n3 as int);
    }
    Ok(
        MessageParameter::SubscriptionFilter {
            filter_type: FilterType::AbsoluteRange,
            start_location: Some(l),
            end_group: Some(eg),
        },
    )
}

/// A successful location read consumes no more than it was given.
proof fn lemma_parse_location_len(s: Seq<u8>)
    requires
        spec_parse_location(s) is Ok,
    ensures
        spec_parse_location(s)->Ok_0.1 <= s.len(),
{
    let n1 = spec_get_vi(s)->Ok_0.1;
    lemma_get_vi_len(s);
    lemma_get_vi_len(s.skip(n1 as int));
}

fn parse_body(t: u64, buf: &mut Bytes) -> (r: Result<MessageParameter, ParseError>)
    ensures
        match spec_parse_body(t, bytes_view(*old(buf))) {
            Ok((p, n)) => r == Ok::<MessageParameter, ParseError>(p) && bytes_view(*final(buf))
                == bytes_view(*old(buf)).skip(n as int),
            Err(e) => r == Err::<MessageParameter, ParseError>(e) && is_suffix_of(
                bytes_view(*final(buf)),
                bytes_view(*old(buf)),
            ),
        },
{
    if t == 0x09 {
        match parse_location(buf) {
            Ok(l) => Ok(MessageParameter::LargestObject { location: l }),
            Err(e) => Err(e),
        }
    } else {
        parse_filter_body(buf)
    }
}

proof fn lemma_parse_body_len(t: u64, s: Seq<u8>)
    requires
        spec_parse_body(t, s) is Ok,
    ensures
        spec_parse_body(t, s)->Ok_0.1 <= s.len(),
{
    if t == largest_object_type() {
        lemma_parse_location_len(s);
    } else {
        let n1 = spec_get_vi(s)->Ok_0.1;
        lemma_get_vi_len(s);
        let c = spec_get_vi(s)->Ok_0.0;
        if c >= 3 {
            lemma_parse_location_len(s.skip(n1 as int));
            if c == 4 {
                let n2 = spec_parse_location(s.skip(n1 as int))->Ok_0.1;
                lemma_get_vi_len(s.skip((n1 + n2) as int));
            }
        }
    }
}

/// Reads one parameter from the front of `buf`.
pub fn parse_param(buf: &mut Bytes) -> (r: Result<MessageParameter, ParseError>)
    ensures
        match spec_parse_param(bytes_view(*old(buf))) {
            Ok((p, n)) => r == Ok::<MessageParameter, ParseError>(p) && bytes_view(*final(buf))
                == bytes_view(*old(buf)).skip(n as int),
            Err(e) => r == Err::<MessageParameter, ParseError>(e) && is_suffix_of(
                bytes_view(*final(buf)),
                bytes_view(*old(buf)),
            ),
        },
{
    reveal(spec_parse_param);
    let ghost s = bytes_view(*buf);
    let t = match get_vi(buf) {
        Ok(v) => v,
        Err(e) => {
            return Err(e);
        },
    };
    let ghost n1 = spec_get_vi(s)->Ok_0.1;
    if t == 0x10 || t == 0x20 || t == 0x22 {
        let v = match get_vi(buf) {
            Ok(v) => v,
            Err(e) => {
                proof {
                    lemma_suffix_of_skip(bytes_view(*buf), s, n1 as int);
                }
                return Err(e);
            },
        };
        proof {
            let n2 = spec_get_vi(s.skip(n1 as int))->Ok_0.1;
            lemma_skip_skip(s, n1 as int, n2 as int);
            assert(bytes_view(*buf) == s.skip((n1 + n2) as int));
        }
        param_of_value(t, v)
    } else if t == 0x09 || t == 0x21 {
        let len = match get_vi(buf) {
            Ok(v) => v,
            Err(e) => {
                proof {
                    lemma_suffix_of_skip(bytes_view(*buf), s, n1 as int);
                }
                return Err(e);
            },
        };
        let ghost n2 = spec_get_vi(s.skip(n1 as int))->Ok_0.1;
        proof {
            lemma_get_vi_len(s.skip(n1 as int));
            lemma_skip_skip(s, n1 as int, n2 as int);
        }
        let rem = bytes_remaining(buf);
        if (rem as u64) < len {
            assert(bytes_view(*buf) == s.skip((n1 + n2) as int));
            return Err(
                ParseError::NotEnoughBytes {
                    context: "parse_param",
                    needed: len as usize,
                    available: rem,
                },
            );
        }
        let mut body = bytes_split_front(buf, len as usize);
        proof {
            lemma_skip_skip(s, (n1 + n2) as int, len as int);
            assert(bytes_view(*buf) == s.skip((n1 + n2 + len) as int));
        }
        let p = match parse_body(t, &mut body) {
            Ok(p) => p,
            Err(e) => {
                return Err(e);
            },
        };
        proof {
            lemma_parse_body_len(t, s.skip((n1 + n2) as int).take(len as int));
        }
        let left = bytes_remaining(&body);
        if left != 0 {
            return Err(ParseError::LengthMismatch { expected: len, actual: len - left as u64 });
        }
        Ok(p)
    } else {
        assert(bytes_view(*buf) == s.skip(n1 as int));
        Err(ParseError::UnknownParameter { type_code: t })
    }
}

proof fn lemma_params_unfold(ps: Seq<MessageParameter>, i: int)
    requires
        0 <= i < ps.len(),
    ensures
        spec_params(ps.skip(i)) == spec_param(ps[i]) + spec_params(ps.skip(i + 1)),
        spec_params_check(ps.skip(i)) == (if spec_param_check(ps[i]) is Err {
            spec_param_check(ps[i])
        } else {
            spec_params_check(ps.skip(i + 1))
        }),
{
    assert(ps.skip(i)[0] == ps[i]);
    assert(ps.skip(i).drop_first() =~= ps.skip(i + 1));
}

/// The first value in `ps` that cannot be encoded, as the encoder reports it.
pub fn params_check(ps: &Vec<MessageParameter>) -> (r: Result<(), ParseError>)
    ensures
        r == spec_params_check(ps@),
{
    let mut i: usize = 0;
    assert(ps@.skip(0) =~= ps@);
    while i < ps.len()
        invariant
            i <= ps@.len(),
            spec_params_check(ps@) == spec_params_check(ps@.skip(i as int)),
        decreases ps@.len() - i,
    {
        proof {
            lemma_params_unfold(ps@, i as int);
        }
        match ps[i].check() {
            Err(e) => {
                return Err(e);
            },
            Ok(()) => {},
        }
        i = i + 1;
    }
    assert(ps@.skip(i as int) =~= Seq::<MessageParameter>::empty());
    Ok(())
}

/// The length of the encoding of `ps`, when it is at most `cap`.
pub fn params_encoded_len(ps: &Vec<MessageParameter>, cap: usize) -> (r: Option<usize>)
    requires
        spec_params_check(ps@) is Ok,
    ensures
        match r {
            Some(n) => n == spec_params(ps@).len() && n <= cap,
            None => spec_params(ps@).len() > cap,
        },
{
    let mut acc: usize = 0;
    let mut i: usize = 0;
    assert(ps@.skip(0) =~= ps@);
    while i < ps.len()
        invariant
            i <= ps@.len(),
            acc <= cap,
            spec_params(ps@).len() == acc + spec_params(ps@.skip(i as int)).len(),
            spec_params_check(ps@.skip(i as int)) is Ok,
        decreases ps@.len() - i,
    {
        proof {
            lemma_params_unfold(ps@, i as int);
        }
        let n = ps[i].encoded_len();
        if n > cap - acc {
            return None;
        }
        acc = acc + n;
        i = i + 1;
    }
    assert(ps@.skip(i as int) =~= Seq::<MessageParameter>::empty());
    Some(acc)
}

/// Appends the encoding of `ps` to `buf`.
pub fn put_params(buf: &mut BytesMut, ps: &Vec<MessageParameter>)
    requires
        spec_params_check(ps@) is Ok,
        bytes_mut_view(*old(buf)).len() + spec_params(ps@).len() + 64 <= isize::MAX,
    ensures
        bytes_mut_view(*final(buf)) == bytes_mut_view(*old(buf)) + spec_params(ps@),
{
    let ghost s = bytes_mut_view(*buf);
    let ghost target = s + spec_params(ps@);
    let mut i: usize = 0;
    assert(ps@.skip(0) =~= ps@);
    while i < ps.len()
        invariant
            i <= ps@.len(),
            target == s + spec_params(ps@),
            target == bytes_mut_view(*buf) + spec_params(ps@.skip(i as int)),
            spec_params_check(ps@.skip(i as int)) is Ok,
            target.len() + 64 <= isize::MAX,
        decreases ps@.len() - i,
    {
        let ghost cur = bytes_mut_view(*buf);
        let ghost rest = spec_params(ps@.skip(i + 1));
        proof {
            lemma_params_unfold(ps@, i as int);
            assert(cur.len() + spec_param(ps@[i as int]).len() + rest.len() == target.len());
        }
        ps[i].serialize_into(buf);
        proof {
            assert(cur + spec_params(ps@.skip(i as int)) == cur + (spec_param(ps@[i as int]) + rest));
            assert(cur + (spec_param(ps@[i as int]) + rest) =~= (cur + spec_param(ps@[i as int]))
                + rest);
        }
        i = i + 1;
    }
    assert(ps@.skip(i as int) =~= Seq::<MessageParameter>::empty());
    assert(bytes_mut_view(*buf) + Seq::<u8>::empty() =~= bytes_mut_view(*buf));
}

/// After reading some parameters of a list of `count` (`done`, taking `consumed`
/// bytes), the outcome of reading the whole list is decided by reading the `k` left.
#[verifier::opaque]
spec fn params_cont(
    s: Seq<u8>,
    count: nat,
    done: Seq<MessageParameter>,
    consumed: nat,
    k: nat,
) -> bool {
    match spec_parse_params(s.skip(consumed as int), k) {
        Ok((ps, m)) => spec_parse_params(s, count) == Ok::<
            (Seq<MessageParameter>, nat),
            ParseError,
        >((done + ps, consumed + m)),
        Err(e) => spec_parse_params(s, count) == Err::<(Seq<MessageParameter>, nat), ParseError>(e),
    }
}

proof fn lemma_params_cont_start(s: Seq<u8>, count: nat)
    ensures
        params_cont(s, count, Seq::<MessageParameter>::empty(), 0, count),
{
    reveal(params_cont);
    assert(s.skip(0) =~= s);
    match spec_parse_params(s, count) {
        Ok((ps, m)) => {
            assert(Seq::<MessageParameter>::empty() + ps =~= ps);
        },
        Err(e) => {},
    }
}

proof fn lemma_params_cont_step(
    s: Seq<u8>,
    count: nat,
    done: Seq<MessageParameter>,
    consumed: nat,
    k: nat,
)
    requires
        k > 0,
        consumed <= s.len(),
        params_cont(s, count, done, consumed, k),
    ensures
        spec_parse_param(s.skip(consumed as int)) is Err ==> spec_parse_params(s, count)
            == Err::<(Seq<MessageParameter>, nat), ParseError>(
            spec_parse_param(s.skip(consumed as int))->Err_0,
        ),
        spec_parse_param(s.skip(consumed as int)) is Ok ==> ({
            let (p, n) = spec_parse_param(s.skip(consumed as int))->Ok_0;
            &&& consumed + n <= s.len()
            &&& s.skip(consumed as int).skip(n as int) == s.skip((consumed + n) as int)
            &&& params_cont(s, count, done.push(p), consumed + n, (k - 1) as nat)
        }),
{
    reveal(params_cont);
    let cur = s.skip(consumed as int);
    if spec_parse_param(cur) is Ok {
        let (p, n) = spec_parse_param(cur)->Ok_0;
        lemma_parse_param_len(cur);
        lemma_skip_skip(s, consumed as int, n as int);
        match spec_parse_params(cur.skip(n as int), (k - 1) as nat) {
            Ok((ps, m)) => {
                assert(done.push(p) + ps =~= done + (seq![p] + ps));
            },
            Err(e) => {},
        }
    }
}

proof fn lemma_params_cont_end(s: Seq<u8>, count: nat, done: Seq<MessageParameter>, consumed: nat)
    requires
        params_cont(s, count, done, consumed, 0),
    ensures
        spec_parse_params(s, count) == Ok::<(Seq<MessageParameter>, nat), ParseError>(
            (done, consumed),
        ),
{
    reveal(params_cont);
    assert(done + Seq::<MessageParameter>::empty() =~= done);
}

/// Reads `count` parameters from the front of `payload`.
pub fn deserialize_message_parameters(payload: &mut Bytes, count: u64) -> (r: Result<
    Vec<MessageParameter>,
    ParseError,
>)
    ensures
        match spec_parse_params(bytes_view(*old(payload)), count as nat) {
            Ok((ps, n)) => r is Ok && r->Ok_0@ == ps && bytes_view(*final(payload)) == bytes_view(
                *old(payload),
            ).skip(n as int),
            Err(e) => r == Err::<Vec<MessageParameter>, ParseError>(e) && is_suffix_of(
                bytes_view(*final(payload)),
                bytes_view(*old(payload)),
            ),
        },
{
    let ghost s = bytes_view(*payload);
    let mut out: Vec<MessageParameter> = Vec::new();
    let mut i: u64 = 0;
    let ghost mut consumed: nat = 0;
    proof {
        lemma_params_cont_start(s, count as nat);
        assert(s.skip(0) =~= s);
    }
    while i < count
        invariant
            i <= count,
            consumed <= s.len(),
            s == bytes_view(*old(payload)),
            bytes_view(*payload) == s.skip(consumed as int),
            params_cont(s, count as nat, out@, consumed, (count - i) as nat),
        decreases count - i,
    {
        proof {
            lemma_params_cont_step(s, count as nat, out@, consumed, (count - i) as nat);
        }
        let p = match parse_param(payload) {
            Ok(p) => p,
            Err(e) => {
                proof {
                    lemma_suffix_of_skip(bytes_view(*payload), s, consumed as int);
                    assert(spec_parse_param(s.skip(consumed as int)) == Err::<
                        (MessageParameter, nat),
                        ParseError,
                    >(e));
                    assert(spec_parse_params(s, count as nat) == Err::<
                        (Seq<MessageParameter>, nat),
                        ParseError,
                    >(e));
                }
                return Err(e);
            },
        };
        proof {
            consumed = consumed + spec_parse_param(s.skip(consumed as int))->Ok_0.1;
        }
        out.push(p);
        i = i + 1;
    }
    proof {
        lemma_params_cont_end(s, count as nat, out@, consumed);
    }
    Ok(out)
}

/// A successful parameter read consumes no more than it was given.
pub proof fn lemma_parse_param_len(s: Seq<u8>)
    requires
        spec_parse_param(s) is Ok,
    ensures
        spec_parse_param(s)->Ok_0.1 <= s.len(),
        spec_parse_param(s)->Ok_0.1 >= 1,
{
    reveal(spec_parse_param);
    lemma_get_vi_len(s);
    let n1 = spec_get_vi(s)->Ok_0.1;
    lemma_get_vi_len(s.skip(n1 as int));
}

proof fn lemma_location_roundtrip(l: Location, rest: Seq<u8>)
    requires
        spec_location_check(l) is Ok,
    ensures
        spec_parse_location(spec_location(l) + rest) == Ok::<(Location, nat), ParseError>(
            (l, spec_location(l).len()),
        ),
{
    let s = spec_location(l) + rest;
    assert(s =~= spec_vi(l.group) + (spec_vi(l.object) + rest));
    lemma_vi_roundtrip(l.group, spec_vi(l.object) + rest);
    let n1 = spec_vi(l.group).len();
    assert(s.skip(n1 as int) =~= spec_vi(l.object) + rest);
    lemma_vi_roundtrip(l.object, rest);
}

#[verifier::rlimit(40)]
proof fn lemma_filter_body_roundtrip(
    filter_type: FilterType,
    start_location: Option<Location>,
    end_group: Option<u64>,
    rest: Seq<u8>,
)
    requires
        param_wf(MessageParameter::SubscriptionFilter { filter_type, start_location, end_group }),
        spec_param_check(
            MessageParameter::SubscriptionFilter { filter_type, start_location, end_group },
        ) is Ok,
    ensures
        spec_parse_filter_body(spec_filter_body(filter_type, start_location, end_group) + rest)
            == Ok::<(MessageParameter, nat), ParseError>(
            (
                MessageParameter::SubscriptionFilter { filter_type, start_location, end_group },
                spec_filter_body(filter_type, start_location, end_group).len(),
            ),
        ),
{
    let c = filter_code(filter_type);
    let locp = match start_location {
        Some(l) => spec_location(l),
        None => Seq::<u8>::empty(),
    };
    let endp = match end_group {
        Some(e) => spec_vi(e),
        None => Seq::<u8>::empty(),
    };
    let b = spec_filter_body(filter_type, start_location, end_group) + rest;
    assert(b =~= spec_vi(c) + (locp + endp + rest));
    lemma_vi_roundtrip(c, locp + endp + rest);
    let n1 = spec_vi(c).len();
    assert(b.skip(n1 as int) =~= locp + (endp + rest));
    match start_location {
        Some(l) => {
            lemma_location_roundtrip(l, endp + rest);
            let n2 = spec_location(l).len();
            assert(b.skip((n1 + n2) as int) =~= endp + rest);
            match end_group {
                Some(e) => {
                    lemma_vi_roundtrip(e, rest);
                },
                None => {},
            }
        },
        None => {},
    }
}

proof fn lemma_even_param_roundtrip(t: u64, v: u64, rest: Seq<u8>)
    requires
        t == forward_type() || t == subscriber_priority_type() || t == group_order_type(),
        v < varint_limit(),
        spec_param_of_value(t, v) is Ok,
    ensures
        spec_parse_param(spec_vi(t) + spec_vi(v) + rest) == Ok::<(MessageParameter, nat), ParseError>(
            (spec_param_of_value(t, v)->Ok_0, (spec_vi(t) + spec_vi(v)).len()),
        ),
{
    reveal(spec_parse_param);
    let s = spec_vi(t) + spec_vi(v) + rest;
    assert(s =~= spec_vi(t) + (spec_vi(v) + rest));
    lemma_vi_roundtrip(t, spec_vi(v) + rest);
    assert(s.skip(1) =~= spec_vi(v) + rest);
    lemma_vi_roundtrip(v, rest);
}

/// How the encoding of a length-prefixed parameter of type `t` with body `body` reads,
/// whatever follows: as its body does, which must take the whole announced length.
proof fn lemma_odd_param_parse(t: u64, body: Seq<u8>, rest: Seq<u8>)
    requires
        t == largest_object_type() || t == subscription_filter_type(),
        body.len() < 0x40,
    ensures
        spec_parse_param(spec_vi(t) + spec_vi(body.len() as u64) + body + rest) == match spec_parse_body(
            t,
            body,
        ) {
            Err(e) => Err(e),
            Ok((p, used)) => if used != body.len() {
                Err(ParseError::LengthMismatch { expected: body.len() as u64, actual: used as u64 })
            } else {
                Ok((p, (spec_vi(t) + spec_vi(body.len() as u64) + body).len()))
            },
        },
{
    reveal(spec_parse_param);
    let len = body.len() as u64;
    let s = spec_vi(t) + spec_vi(len) + body + rest;
    assert(s =~= spec_vi(t) + (spec_vi(len) + (body + rest)));
    lemma_vi_roundtrip(t, spec_vi(len) + (body + rest));
    assert(s.skip(1) =~= spec_vi(len) + (body + rest));
    lemma_vi_roundtrip(len, body + rest);
    assert(s.skip(1).skip(1) =~= body + rest);
    assert((body + rest).take(len as int) =~= body);
}

/// Reading back the encoding of a well-formed parameter gives the parameter and
/// consumes exactly its encoding, whatever follows.
pub proof fn lemma_param_roundtrip(p: MessageParameter, rest: Seq<u8>)
    requires
        param_wf(p),
        spec_param_check(p) is Ok,
    ensures
        spec_parse_param(spec_param(p) + rest) == Ok::<(MessageParameter, nat), ParseError>(
            (p, spec_param(p).len()),
        ),
{
    match p {
        MessageParameter::Forward { forward } => {
            let v: u64 = if forward {
                1
            } else {
                0
            };
            lemma_even_param_roundtrip(0x10, v, rest);
        },
        MessageParameter::SubscriberPriority { priority } => {
            lemma_even_param_roundtrip(0x20, priority as u64, rest);
        },
        MessageParameter::GroupOrder { order } => {
            lemma_even_param_roundtrip(0x22, group_order_code(order), rest);
        },
        MessageParameter::LargestObject { location } => {
            let body = spec_location(location);
            lemma_vi_len(location.group);
            lemma_vi_len(location.object);
            assert(body =~= body + Seq::<u8>::empty());
            lemma_location_roundtrip(location, Seq::<u8>::empty());
            lemma_odd_param_parse(0x09, body, rest);
        },
        MessageParameter::SubscriptionFilter { filter_type, start_location, end_group } => {
            let body = spec_filter_body(filter_type, start_location, end_group);
            assert(body.len() <= 25) by {
                match start_location {
                    Some(l) => {
                        lemma_vi_len(l.group);
                        lemma_vi_len(l.object);
                    },
                    None => {},
                }
                match end_group {
                    Some(e) => {
                        lemma_vi_len(e);
                    },
                    None => {},
                }
            }
            assert(body =~= body + Seq::<u8>::empty());
            lemma_filter_body_roundtrip(filter_type, start_location, end_group, Seq::<u8>::empty());
            lemma_odd_param_parse(0x21, body, rest);
        },
    }
}

/// Reading back the encoding of a list of well-formed parameters gives the list and
/// consumes exactly its encoding, whatever follows.
pub proof fn lemma_params_roundtrip(ps: Seq<MessageParameter>, rest: Seq<u8>)
    requires
        params_wf(ps),
        spec_params_check(ps) is Ok,
    ensures
        spec_parse_params(spec_params(ps) + rest, ps.len()) == Ok::<
            (Seq<MessageParameter>, nat),
            ParseError,
        >((ps, spec_params(ps).len())),
    decreases ps.len(),
{
    if ps.len() == 0 {
        assert(ps =~= Seq::<MessageParameter>::empty());
    } else {
        let tail = ps.drop_first();
        assert(params_wf(tail)) by {
            assert forall|i: int| 0 <= i < tail.len() implies param_wf(#[trigger] tail[i]) by {
                assert(tail[i] == ps[i + 1]);
            }
        }
        assert(param_wf(ps[0]));
        let s = spec_params(ps) + rest;
        assert(s =~= spec_param(ps[0]) + (spec_params(tail) + rest));
        lemma_param_roundtrip(ps[0], spec_params(tail) + rest);
        let n = spec_param(ps[0]).len();
        assert(s.skip(n as int) =~= spec_params(tail) + rest);
        lemma_params_roundtrip(tail, rest);
        assert(seq![ps[0]] + tail =~= ps);
    }
}

/// Bytes after a parameter do not change how it reads.
pub proof fn lemma_param_extend(s: Seq<u8>, t: Seq<u8>)
    requires
        spec_parse_param(s) is Ok,
    ensures
        spec_parse_param(s + t) == spec_parse_param(s),
{
    reveal(spec_parse_param);
    lemma_vi_extend(s, t);
    let n1 = spec_get_vi(s)->Ok_0.1;
    let ty = spec_get_vi(s)->Ok_0.0;
    let r = s.skip(n1 as int);
    assert((s + t).skip(n1 as int) =~= r + t);
    lemma_vi_extend(r, t);
    if ty == largest_object_type() || ty == subscription_filter_type() {
        let n2 = spec_get_vi(r)->Ok_0.1;
        let len = spec_get_vi(r)->Ok_0.0;
        assert((r + t).skip(n2 as int) =~= r.skip(n2 as int) + t);
        assert((r.skip(n2 as int) + t).take(len as int) =~= r.skip(n2 as int).take(len as int));
    }
}

/// Bytes after a list of parameters do not change how it reads, and a successful
/// read consumes no more than it was given.
pub proof fn lemma_params_extend(s: Seq<u8>, t: Seq<u8>, count: nat)
    requires
        spec_parse_params(s, count) is Ok,
    ensures
        spec_parse_params(s + t, count) == spec_parse_params(s, count),
        spec_parse_params(s, count)->Ok_0.1 <= s.len(),
    decreases count,
{
    if count > 0 {
        lemma_param_extend(s, t);
        lemma_parse_param_len(s);
        let n = spec_parse_param(s)->Ok_0.1;
        assert((s + t).skip(n as int) =~= s.skip(n as int) + t);
        lemma_params_extend(s.skip(n as int), t, (count - 1) as nat);
    }
}

/// Whenever the encoding of a parameter that can be encoded reads successfully, the
/// read takes exactly that encoding: a filter whose shape does not match its type may
/// fail to read, but never reads as something shorter or longer.
pub proof fn lemma_param_exact(p: MessageParameter, rest: Seq<u8>)
    requires
        spec_param_check(p) is Ok,
    ensures
        spec_parse_param(spec_param(p) + rest) is Ok ==> spec_parse_param(spec_param(p) + rest)->Ok_0.1
            == spec_param(p).len(),
{
    match p {
        MessageParameter::SubscriptionFilter { filter_type, start_location, end_group } => {
            let body = spec_filter_body(filter_type, start_location, end_group);
            assert(body.len() <= 25) by {
                match start_location {
                    Some(l) => {
                        lemma_vi_len(l.group);
                        lemma_vi_len(l.object);
                    },
                    None => {},
                }
                match end_group {
                    Some(e) => {
                        lemma_vi_len(e);
                    },
                    None => {},
                }
            }
            lemma_odd_param_parse(0x21, body, rest);
        },
        _ => {
            lemma_param_roundtrip(p, rest);
        },
    }
}

/// Whenever the encoding of a list of parameters that can be encoded reads
/// successfully, the read takes exactly that encoding.
pub proof fn lemma_params_exact(ps: Seq<MessageParameter>, rest: Seq<u8>)
    requires
        spec_params_check(ps) is Ok,
    ensures
        spec_parse_params(spec_params(ps) + rest, ps.len()) is Ok ==> spec_parse_params(
            spec_params(ps) + rest,
            ps.len(),
        )->Ok_0.1 == spec_params(ps).len(),
    decreases ps.len(),
{
    if ps.len() > 0 {
        let tail = ps.drop_first();
        let s = spec_params(ps) + rest;
        assert(s =~= spec_param(ps[0]) + (spec_params(tail) + rest));
        lemma_param_exact(ps[0], spec_params(tail) + rest);
        if spec_parse_param(s) is Ok {
            let n = spec_param(ps[0]).len();
            assert(s.skip(n as int) =~= spec_params(tail) + rest);
            lemma_params_exact(tail, rest);
        }
    }
}

/// Each filter type goes on the wire under its MoQT code: 0x1 for NextGroupStart, 0x2
/// for LatestObject, 0x3 for AbsoluteStart, 0x4 for AbsoluteRange. The first two filters
/// are the three bytes 0x21, 1, code; the absolute ones carry their code as the first
/// byte of the body, after the type and the length.
pub proof fn lemma_filter_wire_codes(start: Location, end_group: u64)
    ensures
        spec_param(
            MessageParameter::SubscriptionFilter {
                filter_type: FilterType::NextGroupStart,
                start_location: None,
                end_group: None,
            },
        ) == seq![0x21u8, 0x01, 0x01],
        spec_param(
            MessageParameter::SubscriptionFilter {
                filter_type: FilterType::LatestObject,
                start_location: None,
                end_group: None,
            },
        ) == seq![0x21u8, 0x01, 0x02],
        spec_param(
            MessageParameter::SubscriptionFilter {
                filter_type: FilterType::AbsoluteStart,
                start_location: Some(start),
                end_group: None,
            },
        )[0] == 0x21,
        spec_param(
            MessageParameter::SubscriptionFilter {
                filter_type: FilterType::AbsoluteStart,
                start_location: Some(start),
                end_group: None,
            },
        )[2] == 0x03,
        spec_param(
            MessageParameter::SubscriptionFilter {
                filter_type: FilterType::AbsoluteRange,
                start_location: Some(start),
                end_group: Some(end_group),
            },
        )[0] == 0x21,
        spec_param(
            MessageParameter::SubscriptionFilter {
                filter_type: FilterType::AbsoluteRange,
                start_location: Some(start),
                end_group: Some(end_group),
            },
        )[2] == 0x04,
{
    let ngs = spec_filter_body(FilterType::NextGroupStart, None, None);
    assert(ngs =~= seq![0x01u8]);
    let lo = spec_filter_body(FilterType::LatestObject, None, None);
    assert(lo =~= seq![0x02u8]);
    assert(spec_vi(0x21) =~= seq![0x21u8]);
    assert(spec_vi(1) =~= seq![0x01u8]);
    let a = spec_filter_body(FilterType::AbsoluteStart, Some(start), None);
    assert(a[0] == 0x03);
    assert(a.len() <= 17);
    let r = spec_filter_body(FilterType::AbsoluteRange, Some(start), Some(end_group));
    assert(r[0] == 0x04);
    assert(r.len() <= 25);
}

/// A filter body reads by its first byte, the MoQT code: 0x1 gives NextGroupStart and
/// 0x2 LatestObject, each taking that byte alone; 0x3 and 0x4, whenever what follows
/// reads, give AbsoluteStart and AbsoluteRange; 0x0 and 0x5 to 0x3F are refused as
/// invalid filter types.
pub proof fn lemma_filter_code_reads(b: Seq<u8>)
    requires
        b.len() > 0,
        b[0] < 0x40,
    ensures
        b[0] == 0x01 ==> spec_parse_filter_body(b) == Ok::<(MessageParameter, nat), ParseError>(
            (
                MessageParameter::SubscriptionFilter {
                    filter_type: FilterType::NextGroupStart,
                    start_location: None,
                    end_group: None,
                },
                1,
            ),
        ),
        b[0] == 0x02 ==> spec_parse_filter_body(b) == Ok::<(MessageParameter, nat), ParseError>(
            (
                MessageParameter::SubscriptionFilter {
                    filter_type: FilterType::LatestObject,
                    start_location: None,
                    end_group: None,
                },
                1,
            ),
        ),
        b[0] == 0x03 && spec_parse_filter_body(b) is Ok ==> spec_parse_filter_body(
            b,
        )->Ok_0.0 matches MessageParameter::SubscriptionFilter {
            filter_type: FilterType::AbsoluteStart,
            start_location: Some(_),
            end_group: None,
        },
        b[0] == 0x04 && spec_parse_filter_body(b) is Ok ==> spec_parse_filter_body(
            b,
        )->Ok_0.0 matches MessageParameter::SubscriptionFilter {
            filter_type: FilterType::AbsoluteRange,
            start_location: Some(_),
            end_group: Some(_),
        },
        b[0] == 0x00 || b[0] > 0x04 ==> spec_parse_filter_body(b) == Err::<
            (MessageParameter, nat),
            ParseError,
        >(ParseError::InvalidFilterType { value: b[0] as u64 }),
{
    let c = b[0] as u64;
    assert(spec_vi(c) =~= seq![b[0]]);
    assert(b =~= spec_vi(c) + b.skip(1));
    lemma_vi_roundtrip(c, b.skip(1));
}

/// The filter parameter bytes 0x21, 1, 0x1 read as a NextGroupStart filter and the
/// bytes 0x21, 1, 0x2 as a LatestObject filter, taking those three bytes, whatever
/// follows.
pub proof fn lemma_filter_param_reads(rest: Seq<u8>)
    ensures
        spec_parse_param(seq![0x21u8, 0x01, 0x01] + rest) == Ok::<
            (MessageParameter, nat),
            ParseError,
        >(
            (
                MessageParameter::SubscriptionFilter {
                    filter_type: FilterType::NextGroupStart,
                    start_location: None,
                    end_group: None,
                },
                3,
            ),
        ),
        spec_parse_param(seq![0x21u8, 0x01, 0x02] + rest) == Ok::<
            (MessageParameter, nat),
            ParseError,
        >(
            (
                MessageParameter::SubscriptionFilter {
                    filter_type: FilterType::LatestObject,
                    start_location: None,
                    end_group: None,
                },
                3,
            ),
        ),
{
    let l = Location { group: 0, object: 0 };
    lemma_filter_wire_codes(l, 0);
    lemma_param_roundtrip(
        MessageParameter::SubscriptionFilter {
            filter_type: FilterType::NextGroupStart,
            start_location: None,
            end_group: None,
        },
        rest,
    );
    lemma_param_roundtrip(
        MessageParameter::SubscriptionFilter {
            filter_type: FilterType::LatestObject,
            start_location: None,
            end_group: None,
        },
        rest,
    );
}

/// GROUP_ORDER goes on the wire under its MoQT code, 0x0 original, 0x1 ascending, 0x2
/// descending: the parameter is the two bytes 0x22, code. The bytes 0x22, `c` read back
/// as the order of code `c`, taking two bytes, and any other one-byte value is refused
/// as an invalid group order.
pub proof fn lemma_group_order_wire_codes(c: u8, rest: Seq<u8>)
    requires
        c < 0x40,
    ensures
        spec_param(MessageParameter::GroupOrder { order: GroupOrder::Original }) == seq![
            0x22u8,
            0x00,
        ],
        spec_param(MessageParameter::GroupOrder { order: GroupOrder::Ascending }) == seq![
            0x22u8,
            0x01,
        ],
        spec_param(MessageParameter::GroupOrder { order: GroupOrder::Descending }) == seq![
            0x22u8,
            0x02,
        ],
        spec_parse_param(seq![0x22u8, c] + rest) == if c == 0x00 {
            Ok::<(MessageParameter, nat), ParseError>(
                (MessageParameter::GroupOrder { order: GroupOrder::Original }, 2),
            )
        } else if c == 0x01 {
            Ok::<(MessageParameter, nat), ParseError>(
                (MessageParameter::GroupOrder { order: GroupOrder::Ascending }, 2),
            )
        } else if c == 0x02 {
            Ok::<(MessageParameter, nat), ParseError>(
                (MessageParameter::GroupOrder { order: GroupOrder::Descending }, 2),
            )
        } else {
            Err::<(MessageParameter, nat), ParseError>(
                ParseError::InvalidGroupOrder { value: c as u64 },
            )
        },
{
    reveal(spec_parse_param);
    assert(spec_vi(0x22) =~= seq![0x22u8]);
    assert(spec_vi(0) =~= seq![0x00u8]);
    assert(spec_vi(1) =~= seq![0x01u8]);
    assert(spec_vi(2) =~= seq![0x02u8]);
    let s = seq![0x22u8, c] + rest;
    assert(spec_vi(c as u64) =~= seq![c]);
    assert(s =~= spec_vi(0x22) + (spec_vi(c as u64) + rest));
    lemma_vi_roundtrip(0x22, spec_vi(c as u64) + rest);
    assert(s.skip(1) =~= spec_vi(c as u64) + rest);
    lemma_vi_roundtrip(c as u64, rest);
}

/// FORWARD goes on the wire as 0x10 then 0x0 (off) or 0x1 (on); SUBSCRIBER_PRIORITY as
/// 0x20 then the priority as a variable-length integer; LARGEST_OBJECT as 0x09, the
/// length of the rest, then the group and the object. The bytes 0x10, 0x0 and 0x10, 0x1
/// read back as forwarding off and on, and 0x20, `p` as priority `p` below 0x40.
pub proof fn lemma_other_param_wire_codes(priority: u8, location: Location, rest: Seq<u8>)
    ensures
        spec_param(MessageParameter::Forward { forward: false }) == seq![0x10u8, 0x00],
        spec_param(MessageParameter::Forward { forward: true }) == seq![0x10u8, 0x01],
        priority < 0x40 ==> spec_param(MessageParameter::SubscriberPriority { priority })
            == seq![0x20u8, priority],
        priority >= 0x40 ==> spec_param(MessageParameter::SubscriberPriority { priority })
            == seq![0x20u8, 0x40, priority],
        spec_param(MessageParameter::LargestObject { location })[0] == 0x09,
        spec_param(MessageParameter::LargestObject { location })[1] == spec_param(
            MessageParameter::LargestObject { location },
        ).len() - 2,
        spec_param(MessageParameter::LargestObject { location }).skip(2) == spec_vi(location.group)
            + spec_vi(location.object),
        spec_parse_param(seq![0x10u8, 0x00] + rest) == Ok::<(MessageParameter, nat), ParseError>(
            (MessageParameter::Forward { forward: false }, 2),
        ),
        spec_parse_param(seq![0x10u8, 0x01] + rest) == Ok::<(MessageParameter, nat), ParseError>(
            (MessageParameter::Forward { forward: true }, 2),
        ),
        priority < 0x40 ==> spec_parse_param(seq![0x20u8, priority] + rest) == Ok::<
            (MessageParameter, nat),
            ParseError,
        >((MessageParameter::SubscriberPriority { priority }, 2)),
{
    assert(spec_vi(0x10) =~= seq![0x10u8]);
    assert(spec_vi(0x20) =~= seq![0x20u8]);
    assert(spec_vi(0x09) =~= seq![0x09u8]);
    assert(spec_vi(0) =~= seq![0x00u8]);
    assert(spec_vi(1) =~= seq![0x01u8]);
    let p = priority as u64;
    if priority < 0x40 {
        assert(spec_vi(p) =~= seq![priority]);
        assert(seq![0x20u8, priority] + rest =~= spec_vi(0x20) + spec_vi(p) + rest);
        lemma_even_param_roundtrip(0x20, p, rest);
    } else {
        assert(spec_vi(p) =~= seq![0x40u8, priority]);
    }
    let body = spec_location(location);
    assert(body.len() <= 16);
    let lp = spec_param(MessageParameter::LargestObject { location });
    assert(lp.skip(2) =~= body);
    assert(seq![0x10u8, 0x00] + rest =~= spec_vi(0x10) + spec_vi(0) + rest);
    lemma_even_param_roundtrip(0x10, 0, rest);
    assert(seq![0x10u8, 0x01] + rest =~= spec_vi(0x10) + spec_vi(1) + rest);
    lemma_even_param_roundtrip(0x10, 1, rest);
}

} // verus!
