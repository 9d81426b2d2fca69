//! The SUBSCRIBE control message: a request ID, the track's namespace and name, and
//! a list of parameters, framed as the message type, a 16-bit payload length and the
//! payload.
use crate::buffer::{
    bytes_mut_extend, bytes_mut_freeze, bytes_mut_new, bytes_mut_put_u16, bytes_mut_view,
    bytes_remaining, bytes_split_front_to_vec, bytes_view,
};
use crate::error::{casting_error, error_agrees, ParseError};
use crate::parameter::{
    deserialize_message_parameters, lemma_params_exact, lemma_params_extend, lemma_params_roundtrip, params_check,
    params_encoded_len, params_wf, put_params, spec_params, spec_params_check, spec_parse_params,
    FilterType, Location, MessageParameter,
};
use crate::tuple::{
    lemma_tuple_extend, lemma_tuple_roundtrip, spec_parse_tuple, spec_tuple, spec_tuple_check,
    Tuple, TupleField,
};
use crate::varint::{
    check_vi, get_vi, is_suffix_of, lemma_skip_skip, lemma_suffix_of_skip, lemma_vi_extend,
    lemma_vi_roundtrip, put_vi, spec_get_vi, spec_vi, varint_limit, vi_len,
};
use bytes::Bytes;
use vstd::prelude::*;

verus! {

/// The control message types this library encodes.
#[derive(Debug, Clone, Copy, PartialEq, Eq)]
pub enum ControlMessageType {
    Subscribe,
}

/// The wire code of SUBSCRIBE.
pub open spec fn subscribe_type_code() -> u64 {
    0x03
}

impl ControlMessageType {
    /// The wire code of the message type.
    pub fn to_u64(&self) -> (r: u64)
        ensures
            r == subscribe_type_code(),
    {
        0x03
    }
}

/// A track's full name: its namespace and its name within the namespace.
#[derive(Debug, PartialEq, Eq)]
pub struct FullTrackName {
    pub namespace: Tuple,
    pub name: TupleField,
}

impl Clone for FullTrackName {
    fn clone(&self) -> (r: Self)
        ensures
            r.namespace@ == self.namespace@,
            r.name@ == self.name@,
    {
        FullTrackName { namespace: self.namespace.clone(), name: self.name.clone() }
    }
}

/// A SUBSCRIBE message.
#[derive(Debug, PartialEq, Eq)]
pub struct Subscribe {
    pub request_id: u64,
    pub track_namespace: Tuple,
    pub track_name: TupleField,
    pub subscribe_parameters: Vec<MessageParameter>,
}

impl Clone for Subscribe {
    fn clone(&self) -> (r: Self)
        ensures
            r@ == self@,
    {
        let mut params: Vec<MessageParameter> = Vec::new();
        let mut i: usize = 0;
        while i < self.subscribe_parameters.len()
            invariant
                i <= self.subscribe_parameters@.len(),
                params@ == self.subscribe_parameters@.take(i as int),
            decreases self.subscribe_parameters@.len() - i,
        {
            params.push(self.subscribe_parameters[i]);
            i = i + 1;
            assert(params@ =~= self.subscribe_parameters@.take(i as int));
        }
        assert(self.subscribe_parameters@.take(i as int) =~= self.subscribe_parameters@);
        Subscribe {
            request_id: self.request_id,
            track_namespace: self.track_namespace.clone(),
            track_name: self.track_name.clone(),
            subscribe_parameters: params,
        }
    }
}

/// The contents of a SUBSCRIBE message.
pub struct SubscribeView {
    pub request_id: u64,
    pub track_namespace: Seq<Seq<u8>>,
    pub track_name: Seq<u8>,
    pub subscribe_parameters: Seq<MessageParameter>,
}

impl View for Subscribe {
    type V = SubscribeView;

    open spec fn view(&self) -> SubscribeView {
        SubscribeView {
            request_id: self.request_id,
            track_namespace: self.track_namespace@,
            track_name: self.track_name@,
            subscribe_parameters: self.subscribe_parameters@,
        }
    }
}

/// The payload of a SUBSCRIBE message.
pub open spec fn spec_payload(s: SubscribeView) -> Seq<u8> {
    spec_vi(s.request_id) + spec_tuple(s.track_namespace) + spec_vi(s.track_name.len() as u64)
        + s.track_name + spec_vi(s.subscribe_parameters.len() as u64) + spec_params(
        s.subscribe_parameters,
    )
}

/// The first value of a SUBSCRIBE message that cannot be encoded, in encoding order.
pub open spec fn spec_payload_check(s: SubscribeView) -> Result<(), ParseError> {
    if s.request_id >= varint_limit() {
        Err(ParseError::VarIntOverflow { value: s.request_id })
    } else if spec_tuple_check(s.track_namespace) is Err {
        spec_tuple_check(s.track_namespace)
    } else if s.track_name.len() >= varint_limit() {
        Err(ParseError::VarIntOverflow { value: s.track_name.len() as u64 })
    } else if s.subscribe_parameters.len() >= varint_limit() {
        Err(ParseError::VarIntOverflow { value: s.subscribe_parameters.len() as u64 })
    } else {
        spec_params_check(s.subscribe_parameters)
    }
}

/// The largest payload the 16-bit length field can announce.
pub open spec fn max_payload_len() -> nat {
    0xFFFF
}

/// A 16-bit value in big-endian order.
pub open spec fn spec_u16_be(n: nat) -> Seq<u8> {
    seq![(n / 256) as u8, (n % 256) as u8]
}

/// What serializing a SUBSCRIBE message gives: the message type, the payload length
/// and the payload; or the first value that cannot be encoded; or, when the payload
/// is longer than the length field can say, the casting error.
pub open spec fn spec_serialize(s: SubscribeView) -> Result<Seq<u8>, ParseError> {
    match spec_payload_check(s) {
        Err(e) => Err(e),
        Ok(_) => {
            let p = spec_payload(s);
            if p.len() > max_payload_len() {
                Err(casting_error("Subscribe::serialize", "usize", "u16"))
            } else {
                Ok(spec_vi(subscribe_type_code()) + spec_u16_be(p.len()) + p)
            }
        },
    }
}

/// What reading a SUBSCRIBE payload from the front of `s` gives: the message and the
/// bytes it took, or the first error met.
#[verifier::opaque]
pub open spec fn spec_parse_payload(s: Seq<u8>) -> Result<(SubscribeView, nat), ParseError> {
    match spec_get_vi(s) {
        Err(e) => Err(e),
        Ok((request_id, n1)) => match spec_parse_tuple(s.skip(n1 as int)) {
            Err(e) => Err(e),
            Ok((ns, n2)) => {
                let s3 = s.skip((n1 + n2) as int);
                match spec_get_vi(s3) {
                    Err(e) => Err(e),
                    Ok((name_len, n3)) => if name_len > usize::MAX {
                        Err(casting_error("Subscribe::parse_payload(track_name_len)", "u64", "usize"))
                    } else {
                        let s4 = s3.skip(n3 as int);
                        if s4.len() < name_len {
                            Err(
                                ParseError::NotEnoughBytes {
                                    context: "Subscribe::parse_payload(track_name)",
                                    needed: name_len as usize,
                                    available: s4.len() as usize,
                                },
                            )
                        } else {
                            let s5 = s4.skip(name_len as int);
                            match spec_get_vi(s5) {
                                Err(e) => Err(e),
                                Ok((count, n5)) => match spec_parse_params(
                                    s5.skip(n5 as int),
                                    count as nat,
                                ) {
                                    Err(e) => Err(e),
                                    Ok((ps, n6)) => Ok(
                                        (
                                            SubscribeView {
                                                request_id,
                                                track_namespace: ns,
                                                track_name: s4.take(name_len as int),
                                                subscribe_parameters: ps,
                                            },
                                            n1 + n2 + n3 + name_len as nat + n5 + n6,
                                        ),
                                    ),
                                },
                            }
                        }
                    },
                }
            },
        },
    }
}

/// The subscription filter that a list of parameters carries first, if any.
pub open spec fn spec_first_filter(ps: Seq<MessageParameter>) -> Option<
    (FilterType, Option<Location>, Option<u64>),
>
    decreases ps.len(),
{
    if ps.len() == 0 {
        None
    } else {
        match ps[0] {
            MessageParameter::SubscriptionFilter { filter_type, start_location, end_group } => Some(
                (filter_type, start_location, end_group),
            ),
            _ => spec_first_filter(ps.drop_first()),
        }
    }
}

impl Subscribe {
    pub fn new(
        request_id: u64,
        track_namespace: Tuple,
        track_name: TupleField,
        subscribe_parameters: Vec<MessageParameter>,
    ) -> (r: Subscribe)
        ensures
            r.request_id == request_id,
            r.track_namespace@ == track_namespace@,
            r.track_name@ == track_name@,
            r.subscribe_parameters@ == subscribe_parameters@,
    {
        Subscribe { request_id, track_namespace, track_name, subscribe_parameters }
    }

    /// A subscription that starts at the next group.
    pub fn new_next_group_start(
        request_id: u64,
        track_namespace: Tuple,
        track_name: TupleField,
        subscribe_parameters: Vec<MessageParameter>,
    ) -> (r: Subscribe)
        ensures
            r.request_id == request_id,
            r.track_namespace@ == track_namespace@,
            r.track_name@ == track_name@,
            r.subscribe_parameters@ == subscribe_parameters@.push(
                MessageParameter::SubscriptionFilter {
                    filter_type: FilterType::NextGroupStart,
                    start_location: None,
                    end_group: None,
                },
            ),
            params_wf(subscribe_parameters@) ==> params_wf(r.subscribe_parameters@),
    {
        let mut params = subscribe_parameters;
        params.push(
            MessageParameter::new_subscription_filter(FilterType::NextGroupStart, None, None),
        );
        Self::new(request_id, track_namespace, track_name, params)
    }

    /// A subscription that starts at the latest object.
    pub fn new_latest_object(
        request_id: u64,
        track_namespace: Tuple,
        track_name: TupleField,
        subscribe_parameters: Vec<MessageParameter>,
    ) -> (r: Subscribe)
        ensures
            r.request_id == request_id,
            r.track_namespace@ == track_namespace@,
            r.track_name@ == track_name@,
            r.subscribe_parameters@ == subscribe_parameters@.push(
                MessageParameter::SubscriptionFilter {
                    filter_type: FilterType::LatestObject,
                    start_location: None,
                    end_group: None,
                },
            ),
            params_wf(subscribe_parameters@) ==> params_wf(r.subscribe_parameters@),
    {
        let mut params = subscribe_parameters;
        params.push(MessageParameter::new_subscription_filter(FilterType::LatestObject, None, None));
        Self::new(request_id, track_namespace, track_name, params)
    }

    /// A subscription that starts at `start_location` and has no end.
    pub fn new_absolute_start(
        request_id: u64,
        track_namespace: Tuple,
        track_name: TupleField,
        start_location: Location,
        subscribe_parameters: Vec<MessageParameter>,
    ) -> (r: Subscribe)
        ensures
            r.request_id == request_id,
            r.track_namespace@ == track_namespace@,
            r.track_name@ == track_name@,
            r.subscribe_parameters@ == subscribe_parameters@.push(
                MessageParameter::SubscriptionFilter {
                    filter_type: FilterType::AbsoluteStart,
                    start_location: Some(start_location),
                    end_group: None,
                },
            ),
            params_wf(subscribe_parameters@) ==> params_wf(r.subscribe_parameters@),
    {
        let mut params = subscribe_parameters;
        params.push(
            MessageParameter::new_subscription_filter(
                FilterType::AbsoluteStart,
                Some(start_location),
                None,
            ),
        );
        Self::new(request_id, track_namespace, track_name, params)
    }

    /// A subscription from `start_location` to the end of group `end_group`, which may
    /// not come before the start group.
    pub fn new_absolute_range(
        request_id: u64,
        track_namespace: Tuple,
        track_name: TupleField,
        start_location: Location,
        end_group: u64,
        subscribe_parameters: Vec<MessageParameter>,
    ) -> (r: Subscribe)
        requires
            end_group >= start_location.group,
        ensures
            r.request_id == request_id,
            r.track_namespace@ == track_namespace@,
            r.track_name@ == track_name@,
            r.subscribe_parameters@ == subscribe_parameters@.push(
                MessageParameter::SubscriptionFilter {
                    filter_type: FilterType::AbsoluteRange,
                    start_location: Some(start_location),
                    end_group: Some(end_group),
                },
            ),
            params_wf(subscribe_parameters@) ==> params_wf(r.subscribe_parameters@),
    {
        let mut params = subscribe_parameters;
        params.push(
            MessageParameter::new_subscription_filter(
                FilterType::AbsoluteRange,
                Some(start_location),
                Some(end_group),
            ),
        );
        Self::new(request_id, track_namespace, track_name, params)
    }

    /// The track's namespace and name.
    pub fn get_full_track_name(&self) -> (r: FullTrackName)
        ensures
            r.namespace@ == self.track_namespace@,
            r.name@ == self.track_name@,
    {
        FullTrackName { namespace: self.track_namespace.clone(), name: self.track_name.clone() }
    }

    /// The first subscription filter among the parameters, if there is one.
    pub fn get_subscription_filter(&self) -> (r: Option<(FilterType, Option<Location>, Option<u64>)>)
        ensures
            r == spec_first_filter(self.subscribe_parameters@),
    {
        let ghost ps = self.subscribe_parameters@;
        let mut i: usize = 0;
        assert(ps.skip(0) =~= ps);
        while i < self.subscribe_parameters.len()
            invariant
                i <= ps.len(),
                ps == self.subscribe_parameters@,
                spec_first_filter(ps) == spec_first_filter(ps.skip(i as int)),
            decreases ps.len() - i,
        {
            assert(ps.skip(i as int)[0] == ps[i as int]);
            assert(ps.skip(i as int).drop_first() =~= ps.skip(i + 1));
            match self.subscribe_parameters[i] {
                MessageParameter::SubscriptionFilter { filter_type, start_location, end_group } => {
                    return Some((filter_type, start_location, end_group));
                },
                _ => {},
            }
            i = i + 1;
        }
        assert(ps.skip(i as int) =~= Seq::<MessageParameter>::empty());
        None
    }

    /// The message type.
    pub fn get_type(&self) -> (r: ControlMessageType)
        ensures
            r == ControlMessageType::Subscribe,
    {
        ControlMessageType::Subscribe
    }

    /// The first value of the message that cannot be encoded, in encoding order.
    fn check_payload(&self) -> (r: Result<(), ParseError>)
        ensures
            r == spec_payload_check(self@),
    {
        match check_vi(self.request_id) {
            Err(e) => {
                return Err(e);
            },
            Ok(()) => {},
        }
        match self.track_namespace.check() {
            Err(e) => {
                return Err(e);
            },
            Ok(()) => {},
        }
        match check_vi(self.track_name.value.len() as u64) {
            Err(e) => {
                return Err(e);
            },
            Ok(()) => {},
        }
        match check_vi(self.subscribe_parameters.len() as u64) {
            Err(e) => {
                return Err(e);
            },
            Ok(()) => {},
        }
        params_check(&self.subscribe_parameters)
    }

    /// The length of the payload, when the length field can announce it.
    fn payload_len(&self) -> (r: Option<usize>)
        requires
            spec_payload_check(self@) is Ok,
        ensures
            match r {
                Some(n) => n == spec_payload(self@).len() && n <= max_payload_len(),
                None => spec_payload(self@).len() > max_payload_len(),
            },
    {
        let ghost v = self@;
        let mut acc: usize = vi_len(self.request_id);
        let tl = match self.track_namespace.encoded_len(0xFFFF - acc) {
            Some(n) => n,
            None => {
                return None;
            },
        };
        acc = acc + tl;
        let name_len = self.track_name.value.len();
        if name_len > 0xFFFF {
            return None;
        }
        acc = acc + vi_len(name_len as u64) + name_len;
        if acc > 0xFFFF {
            return None;
        }
        acc = acc + vi_len(self.subscribe_parameters.len() as u64);
        if acc > 0xFFFF {
            return None;
        }
        let pl = match params_encoded_len(&self.subscribe_parameters, 0xFFFF - acc) {
            Some(n) => n,
            None => {
                return None;
            },
        };
        Some(acc + pl)
    }

    /// The message's encoding: the message type, the payload length and the payload.
    pub fn serialize(&self) -> (r: Result<Bytes, ParseError>)
        ensures
            match spec_serialize(self@) {
                Ok(b) => r is Ok && bytes_view(r->Ok_0) == b,
                Err(e) => r is Err && error_agrees(r->Err_0, e),
            },
    {
        match self.check_payload() {
            Err(e) => {
                return Err(e);
            },
            Ok(()) => {},
        }
        // Beyond 0xFFFF the exact length does not matter: any such length fails to
        // convert, with the same error.
        let len: usize = match self.payload_len() {
            Some(n) => n,
            None => 0x10000,
        };
        let len16: u16 = match u16::try_from(len) {
            Ok(n) => n,
            Err(e) => {
                return Err(
                    ParseError::CastingError {
                        context: "Subscribe::serialize",
                        from_type: "usize",
                        to_type: "u16",
                        details: e.to_string(),
                    },
                );
            },
        };
        let ghost v = self@;
        let mut buf = bytes_mut_new();
        put_vi(&mut buf, 0x03);
        bytes_mut_put_u16(&mut buf, len16);
        let ghost head = bytes_mut_view(buf);
        assert(head =~= spec_vi(subscribe_type_code()) + spec_u16_be(len as nat));
        put_vi(&mut buf, self.request_id);
        self.track_namespace.serialize_into(&mut buf);
        put_vi(&mut buf, self.track_name.value.len() as u64);
        bytes_mut_extend(&mut buf, self.track_name.value.as_slice());
        put_vi(&mut buf, self.subscribe_parameters.len() as u64);
        put_params(&mut buf, &self.subscribe_parameters);
        assert(bytes_mut_view(buf) =~= head + spec_payload(v));
        Ok(bytes_mut_freeze(buf))
    }
}

impl Subscribe {
    /// Reads a SUBSCRIBE payload (what follows the type and length fields) from the
    /// front of `payload`.
    pub fn parse_payload(payload: &mut Bytes) -> (r: Result<Box<Subscribe>, ParseError>)
        ensures
            match spec_parse_payload(bytes_view(*old(payload))) {
                Ok((v, n)) => r is Ok && r->Ok_0@ == v && bytes_view(*final(payload)) == bytes_view(
                    *old(payload),
                ).skip(n as int),
                Err(e) => r is Err && error_agrees(r->Err_0, e) && is_suffix_of(
                    bytes_view(*final(payload)),
                    bytes_view(*old(payload)),
                ),
            },
    {
        reveal(spec_parse_payload);
        let ghost s = bytes_view(*payload);
        let request_id = match get_vi(payload) {
            Ok(v) => v,
            Err(e) => {
                return Err(e);
            },
        };
        let ghost n1 = spec_get_vi(s)->Ok_0.1;
        let track_namespace = match Tuple::deserialize(payload) {
            Ok(t) => t,
            Err(e) => {
                proof {
                    lemma_suffix_of_skip(bytes_view(*payload), s, n1 as int);
                }
                return Err(e);
            },
        };
        let ghost n2 = spec_parse_tuple(s.skip(n1 as int))->Ok_0.1;
        proof {
            lemma_tuple_extend(s.skip(n1 as int), Seq::<u8>::empty());
            assert(s.skip(n1 as int) + Seq::<u8>::empty() =~= s.skip(n1 as int));
            lemma_skip_skip(s, n1 as int, n2 as int);
        }
        let ghost s3 = s.skip((n1 + n2) as int);
        let name_len_u64 = match get_vi(payload) {
            Ok(v) => v,
            Err(e) => {
                proof {
                    lemma_suffix_of_skip(bytes_view(*payload), s, (n1 + n2) as int);
                }
                return Err(e);
            },
        };
        let ghost n3 = spec_get_vi(s3)->Ok_0.1;
        proof {
            lemma_skip_skip(s, (n1 + n2) as int, n3 as int);
        }
        let ghost s4 = s3.skip(n3 as int);
        assert(s4 == s.skip((n1 + n2 + n3) as int));
        let name_len: usize = match usize::try_from(name_len_u64) {
            Ok(n) => n,
            Err(e) => {
                assert(bytes_view(*payload) == s.skip((n1 + n2 + n3) as int));
                return Err(
                    ParseError::CastingError {
                        context: "Subscribe::parse_payload(track_name_len)",
                        from_type: "u64",
                        to_type: "usize",
                        details: e.to_string(),
                    },
                );
            },
        };
        let rem = bytes_remaining(payload);
        if rem < name_len {
            assert(bytes_view(*payload) == s.skip((n1 + n2 + n3) as int));
            return Err(
                ParseError::NotEnoughBytes {
                    context: "Subscribe::parse_payload(track_name)",
                    needed: name_len,
                    available: rem,
                },
            );
        }
        let name = bytes_split_front_to_vec(payload, name_len);
        proof {
            lemma_skip_skip(s, (n1 + n2 + n3) as int, name_len as int);
        }
        let ghost s5 = s4.skip(name_len as int);
        assert(bytes_view(*payload) == s5);
        let count = match get_vi(payload) {
            Ok(v) => v,
            Err(e) => {
                proof {
                    lemma_suffix_of_skip(bytes_view(*payload), s, (n1 + n2 + n3 + name_len) as int);
                }
                return Err(e);
            },
        };
        let ghost n5 = spec_get_vi(s5)->Ok_0.1;
        proof {
            lemma_skip_skip(s, (n1 + n2 + n3 + name_len) as int, n5 as int);
        }
        let subscribe_parameters = match deserialize_message_parameters(payload, count) {
            Ok(ps) => ps,
            Err(e) => {
                proof {
                    lemma_suffix_of_skip(
                        bytes_view(*payload),
                        s,
                        (n1 + n2 + n3 + name_len + n5) as int,
                    );
                }
                return Err(e);
            },
        };
        proof {
            let n6 = spec_parse_params(s5.skip(n5 as int), count as nat)->Ok_0.1;
            lemma_params_extend(s5.skip(n5 as int), Seq::<u8>::empty(), count as nat);
            assert(s5.skip(n5 as int) + Seq::<u8>::empty() =~= s5.skip(n5 as int));
            lemma_skip_skip(s, (n1 + n2 + n3 + name_len + n5) as int, n6 as int);
        }
        Ok(
            Box::new(
                Subscribe {
                    request_id,
                    track_namespace,
                    track_name: TupleField { value: name },
                    subscribe_parameters,
                },
            ),
        )
    }
}

/// A message that serializes starts with the SUBSCRIBE type code 0x03 in one byte,
/// followed by a big-endian 16-bit length equal to the number of bytes that follow it,
/// which are the payload, led by the request ID.
pub proof fn lemma_serialize_frame(s: SubscribeView)
    requires
        spec_serialize(s) is Ok,
    ensures
        ({
            let b = spec_serialize(s)->Ok_0;
            &&& b.len() >= 3
            &&& b[0] == 0x03
            &&& spec_get_vi(b) == Ok::<(u64, nat), ParseError>((subscribe_type_code(), 1))
            &&& spec_get_vi(b.skip(3))->Ok_0.0 == s.request_id
            &&& b[1] * 256 + b[2] == b.len() - 3
            &&& b.skip(3) == spec_payload(s)
        }),
{
    let b = spec_serialize(s)->Ok_0;
    let p = spec_payload(s);
    lemma_vi_roundtrip(subscribe_type_code(), spec_u16_be(p.len()) + p);
    assert(b =~= spec_vi(subscribe_type_code()) + (spec_u16_be(p.len()) + p));
    assert(b.skip(3) =~= p);
    assert(spec_vi(0x03) =~= seq![0x03u8]);
    lemma_vi_roundtrip(s.request_id, p.skip(spec_vi(s.request_id).len() as int));
    assert(p =~= spec_vi(s.request_id) + p.skip(spec_vi(s.request_id).len() as int));
}

/// How the payload of a message that serializes reads, whatever follows it: the
/// fixed fields read back as they were, and the outcome is that of reading the
/// parameters.
#[verifier::rlimit(60)]
proof fn lemma_payload_parse(s: SubscribeView, rest: Seq<u8>)
    requires
        spec_serialize(s) is Ok,
    ensures
        spec_parse_payload(spec_payload(s) + rest) == match spec_parse_params(
            spec_params(s.subscribe_parameters) + rest,
            s.subscribe_parameters.len(),
        ) {
            Err(e) => Err(e),
            Ok((ps, n)) => Ok(
                (
                    SubscribeView { subscribe_parameters: ps, ..s },
                    (spec_payload(s).len() - spec_params(s.subscribe_parameters).len() + n) as nat,
                ),
            ),
        },
{
    reveal(spec_parse_payload);
    let ns = s.track_namespace;
    let name = s.track_name;
    let ps = s.subscribe_parameters;
    let nl = name.len() as u64;
    let cnt = ps.len() as u64;
    let r5 = spec_params(ps) + rest;
    let r4 = spec_vi(cnt) + r5;
    let r3 = name + r4;
    let r2 = spec_vi(nl) + r3;
    let r1 = spec_tuple(ns) + r2;
    let all = spec_payload(s) + rest;
    assert(all =~= spec_vi(s.request_id) + r1);
    lemma_vi_roundtrip(s.request_id, r1);
    let n1 = spec_vi(s.request_id).len();
    assert(all.skip(n1 as int) =~= r1);
    lemma_tuple_roundtrip(ns, r2);
    let n2 = spec_tuple(ns).len();
    assert(all.skip((n1 + n2) as int) =~= r2);
    lemma_vi_roundtrip(nl, r3);
    let n3 = spec_vi(nl).len();
    assert(all.skip((n1 + n2) as int).skip(n3 as int) =~= r3);
    assert(r3.take(nl as int) =~= name);
    assert(r3.skip(nl as int) =~= r4);
    lemma_vi_roundtrip(cnt, r5);
    let n5 = spec_vi(cnt).len();
    assert(r4.skip(n5 as int) =~= r5);
    assert(nl <= usize::MAX);
}

/// Reading back the payload of a serialized message gives the message, and consumes
/// exactly the payload whatever follows it, provided every subscription filter has the
/// shape its type calls for.
pub proof fn lemma_subscribe_roundtrip(s: SubscribeView, rest: Seq<u8>)
    requires
        spec_serialize(s) is Ok,
        params_wf(s.subscribe_parameters),
    ensures
        spec_parse_payload(spec_payload(s) + rest) == Ok::<(SubscribeView, nat), ParseError>(
            (s, spec_payload(s).len()),
        ),
{
    lemma_payload_parse(s, rest);
    lemma_params_roundtrip(s.subscribe_parameters, rest);
    assert(SubscribeView { subscribe_parameters: s.subscribe_parameters, ..s } == s);
}

/// Bytes after a payload do not change how it reads, and a successful read consumes
/// no more than it was given.
pub proof fn lemma_parse_payload_extend(t: Seq<u8>, u: Seq<u8>)
    requires
        spec_parse_payload(t) is Ok,
    ensures
        spec_parse_payload(t + u) == spec_parse_payload(t),
        spec_parse_payload(t)->Ok_0.1 <= t.len(),
{
    reveal(spec_parse_payload);
    let a = t + u;
    lemma_vi_extend(t, u);
    let n1 = spec_get_vi(t)->Ok_0.1;
    assert(a.skip(n1 as int) =~= t.skip(n1 as int) + u);
    lemma_tuple_extend(t.skip(n1 as int), u);
    let n2 = spec_parse_tuple(t.skip(n1 as int))->Ok_0.1;
    let t3 = t.skip((n1 + n2) as int);
    assert(a.skip((n1 + n2) as int) =~= t3 + u);
    lemma_vi_extend(t3, u);
    let n3 = spec_get_vi(t3)->Ok_0.1;
    let nl = spec_get_vi(t3)->Ok_0.0;
    let t4 = t3.skip(n3 as int);
    assert((t3 + u).skip(n3 as int) =~= t4 + u);
    assert((t4 + u).take(nl as int) =~= t4.take(nl as int));
    let t5 = t4.skip(nl as int);
    assert((t4 + u).skip(nl as int) =~= t5 + u);
    lemma_vi_extend(t5, u);
    let n5 = spec_get_vi(t5)->Ok_0.1;
    let cnt = spec_get_vi(t5)->Ok_0.0;
    assert((t5 + u).skip(n5 as int) =~= t5.skip(n5 as int) + u);
    lemma_params_extend(t5.skip(n5 as int), u, cnt as nat);
}

/// Whenever the payload of a message that serializes reads successfully, whatever
/// follows it, the read takes exactly the payload.
pub proof fn lemma_payload_exact(s: SubscribeView, rest: Seq<u8>)
    requires
        spec_serialize(s) is Ok,
    ensures
        spec_parse_payload(spec_payload(s) + rest) is Ok ==> spec_parse_payload(
            spec_payload(s) + rest,
        )->Ok_0.1 == spec_payload(s).len(),
{
    lemma_payload_parse(s, rest);
    lemma_params_exact(s.subscribe_parameters, rest);
}

/// No strict prefix of the payload of a message that serializes reads as a message: a
/// message cut short is rejected.
pub proof fn lemma_partial_payload_rejected(s: SubscribeView, k: nat)
    requires
        spec_serialize(s) is Ok,
        k < spec_payload(s).len(),
    ensures
        spec_parse_payload(spec_payload(s).take(k as int)) is Err,
{
    let p = spec_payload(s);
    let t = p.take(k as int);
    if spec_parse_payload(t) is Ok {
        lemma_parse_payload_extend(t, p.skip(k as int));
        assert(t + p.skip(k as int) =~= p);
        assert(p + Seq::<u8>::empty() =~= p);
        lemma_payload_exact(s, Seq::<u8>::empty());
    }
}

/// Adding a parameter at the end never hides a filter already present; when there is
/// none, a filter added at the end is the one reported.
pub proof fn lemma_first_filter_push(ps: Seq<MessageParameter>, p: MessageParameter)
    ensures
        spec_first_filter(ps.push(p)) == (if spec_first_filter(ps) is Some {
            spec_first_filter(ps)
        } else {
            match p {
                MessageParameter::SubscriptionFilter { filter_type, start_location, end_group } => Some(
                    (filter_type, start_location, end_group),
                ),
                _ => None,
            }
        }),
    decreases ps.len(),
{
    if ps.len() == 0 {
        assert(ps.push(p).drop_first() =~= Seq::<MessageParameter>::empty());
        assert(spec_first_filter(Seq::<MessageParameter>::empty()) == None::<
            (FilterType, Option<Location>, Option<u64>),
        >);
        assert(ps.push(p)[0] == p);
    } else {
        assert(ps.push(p)[0] == ps[0]);
        assert(ps.push(p).drop_first() =~= ps.drop_first().push(p));
        lemma_first_filter_push(ps.drop_first(), p);
    }
}

} // verus!
