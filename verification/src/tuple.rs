//! Tuples of byte strings, the shape of track namespaces: a count followed by each
//! field as a length and its bytes.
use crate::buffer::{bytes_mut_extend, bytes_mut_view, bytes_remaining, bytes_split_front_to_vec, bytes_view};
use crate::error::ParseError;
use crate::varint::{
    check_vi, get_vi, is_suffix_of, lemma_get_vi_len, lemma_skip_skip, lemma_suffix_of_skip, lemma_vi_extend,
    lemma_vi_roundtrip, put_vi, spec_get_vi, spec_vi, varint_limit, vi_len,
};
use bytes::{Bytes, BytesMut};
use vstd::prelude::*;
use vstd::string::StringSliceAdditionalSpecFns;

verus! {

/// One field of a tuple: a string of bytes.
#[derive(Debug, PartialEq, Eq)]
pub struct TupleField {
    pub value: Vec<u8>,
}

impl View for TupleField {
    type V = Seq<u8>;

    open spec fn view(&self) -> Seq<u8> {
        self.value@
    }
}

impl Clone for TupleField {
    fn clone(&self) -> (r: Self)
        ensures
            r@ == self@,
    {
        let mut value: Vec<u8> = Vec::new();
        let mut i: usize = 0;
        while i < self.value.len()
            invariant
                i <= self.value@.len(),
                value@ == self.value@.take(i as int),
            decreases self.value@.len() - i,
        {
            value.push(self.value[i]);
            i = i + 1;
            assert(value@ =~= self.value@.take(i as int));
        }
        assert(self.value@.take(i as int) =~= self.value@);
        TupleField { value }
    }
}

impl TupleField {
    pub fn new(value: Vec<u8>) -> (r: TupleField)
        ensures
            r@ == value@,
    {
        TupleField { value }
    }

    /// The field holding the UTF-8 bytes of `s`.
    pub fn from_utf8(s: &str) -> (r: TupleField)
        ensures
            r@ == s.spec_bytes(),
    {
        let bytes = s.as_bytes();
        let mut value: Vec<u8> = Vec::new();
        let mut i: usize = 0;
        while i < bytes.len()
            invariant
                i <= bytes@.len(),
                value@ == bytes@.take(i as int),
            decreases bytes@.len() - i,
        {
            value.push(bytes[i]);
            i = i + 1;
            assert(value@ =~= bytes@.take(i as int));
        }
        assert(bytes@.take(i as int) =~= bytes@);
        TupleField { value }
    }

    pub fn len(&self) -> (r: usize)
        ensures
            r as int == self@.len(),
    {
        self.value.len()
    }

    pub fn as_bytes(&self) -> (r: &[u8])
        ensures
            r@ == self@,
    {
        self.value.as_slice()
    }
}

/// A sequence of fields.
#[derive(Debug, PartialEq, Eq)]
pub struct Tuple {
    pub fields: Vec<TupleField>,
}

/// The contents of a list of fields.
pub open spec fn fields_view(fields: Seq<TupleField>) -> Seq<Seq<u8>> {
    fields.map_values(|f: TupleField| f@)
}

impl View for Tuple {
    type V = Seq<Seq<u8>>;

    open spec fn view(&self) -> Seq<Seq<u8>> {
        fields_view(self.fields@)
    }
}

/// The byte used to separate the fields of a path.
pub open spec fn path_separator() -> u8 {
    0x2F
}

/// Splits `b` at every separator, `cur` being the part of the current field read so
/// far; as `str::split`, an empty input or two adjacent separators give empty fields.
pub open spec fn split_path_from(b: Seq<u8>, cur: Seq<u8>) -> Seq<Seq<u8>>
    decreases b.len(),
{
    if b.len() == 0 {
        seq![cur]
    } else if b[0] == path_separator() {
        seq![cur] + split_path_from(b.drop_first(), Seq::<u8>::empty())
    } else {
        split_path_from(b.drop_first(), cur.push(b[0]))
    }
}

/// The fields of a `/`-separated path.
pub open spec fn split_path(b: Seq<u8>) -> Seq<Seq<u8>> {
    split_path_from(b, Seq::<u8>::empty())
}

impl Clone for Tuple {
    fn clone(&self) -> (r: Self)
        ensures
            r@ == self@,
    {
        let mut fields: Vec<TupleField> = Vec::new();
        let mut i: usize = 0;
        while i < self.fields.len()
            invariant
                i <= self.fields@.len(),
                fields@.len() == i,
                forall|j: int| 0 <= j < i ==> (#[trigger] fields@[j])@ == self.fields@[j]@,
            decreases self.fields@.len() - i,
        {
            let f = self.fields[i].clone();
            fields.push(f);
            i = i + 1;
        }
        assert(fields_view(fields@) =~= fields_view(self.fields@));
        Tuple { fields }
    }
}

impl Tuple {
    pub fn new() -> (r: Tuple)
        ensures
            r@ == Seq::<Seq<u8>>::empty(),
    {
        Tuple { fields: Vec::new() }
    }

    pub fn add(&mut self, field: TupleField)
        ensures
            final(self)@ == old(self)@.push(field@),
    {
        self.fields.push(field);
        assert(fields_view(self.fields@) =~= fields_view(old(self).fields@).push(field@));
    }

    pub fn len(&self) -> (r: usize)
        ensures
            r as int == self@.len(),
    {
        self.fields.len()
    }

    /// The tuple whose fields are the `/`-separated parts of `path`.
    pub fn from_utf8_path(path: &str) -> (r: Tuple)
        ensures
            r@ == split_path(path.spec_bytes()),
    {
        let bytes = path.as_bytes();
        let ghost b = bytes@;
        let mut out = Tuple::new();
        let mut cur: Vec<u8> = Vec::new();
        let mut i: usize = 0;
        assert(b.skip(0) =~= b);
        assert(out@ + split_path_from(b, cur@) =~= split_path(b));
        while i < bytes.len()
            invariant
                i <= b.len(),
                b == bytes@,
                b == path.spec_bytes(),
                out@ + split_path_from(b.skip(i as int), cur@) == split_path(b),
            decreases b.len() - i,
        {
            let c = bytes[i];
            let ghost rest = b.skip(i as int);
            assert(rest[0] == c);
            assert(rest.drop_first() =~= b.skip(i + 1));
            if c == 0x2F {
                let ghost old_out = out@;
                let ghost old_cur = cur@;
                out.add(TupleField { value: cur });
                cur = Vec::new();
                assert(old_out + split_path_from(rest, old_cur) =~= out@ + split_path_from(
                    b.skip(i + 1),
                    cur@,
                ));
            } else {
                cur.push(c);
            }
            i = i + 1;
        }
        let ghost old_out = out@;
        let ghost old_cur = cur@;
        assert(b.skip(i as int) =~= Seq::<u8>::empty());
        out.add(TupleField { value: cur });
        assert(out@ =~= old_out + seq![old_cur]);
        out
    }
}

/// The encoding of one field: its length, then its bytes.
pub open spec fn spec_field(f: Seq<u8>) -> Seq<u8> {
    spec_vi(f.len() as u64) + f
}

/// The encoding of a list of fields, one after the other.
pub open spec fn spec_fields(fs: Seq<Seq<u8>>) -> Seq<u8>
    decreases fs.len(),
{
    if fs.len() == 0 {
        Seq::<u8>::empty()
    } else {
        spec_field(fs[0]) + spec_fields(fs.drop_first())
    }
}

/// The encoding of a tuple: the field count, then the fields.
pub open spec fn spec_tuple(t: Seq<Seq<u8>>) -> Seq<u8> {
    spec_vi(t.len() as u64) + spec_fields(t)
}

/// The first field length that cannot be encoded.
pub open spec fn spec_fields_check(fs: Seq<Seq<u8>>) -> Result<(), ParseError>
    decreases fs.len(),
{
    if fs.len() == 0 {
        Ok(())
    } else if fs[0].len() >= varint_limit() {
        Err(ParseError::VarIntOverflow { value: fs[0].len() as u64 })
    } else {
        spec_fields_check(fs.drop_first())
    }
}

/// The first count or length of a tuple that cannot be encoded.
pub open spec fn spec_tuple_check(t: Seq<Seq<u8>>) -> Result<(), ParseError> {
    if t.len() >= varint_limit() {
        Err(ParseError::VarIntOverflow { value: t.len() as u64 })
    } else {
        spec_fields_check(t)
    }
}

/// Reads one field from the front of `s`.
#[verifier::opaque]
pub open spec fn spec_parse_field(s: Seq<u8>) -> Result<(Seq<u8>, nat), ParseError> {
    match spec_get_vi(s) {
        Err(e) => Err(e),
        Ok((len, n)) => {
            let r = s.skip(n as int);
            if r.len() < len {
                Err(
                    ParseError::NotEnoughBytes {
                        context: "Tuple::deserialize",
                        needed: len as usize,
                        available: r.len() as usize,
                    },
                )
            } else {
                Ok((r.take(len as int), n + len as nat))
            }
        },
    }
}

/// Reads `count` fields from the front of `s`.
pub open spec fn spec_parse_fields(s: Seq<u8>, count: nat) -> Result<(Seq<Seq<u8>>, nat), ParseError>
    decreases count,
{
    if count == 0 {
        Ok((Seq::<Seq<u8>>::empty(), 0))
    } else {
        match spec_parse_field(s) {
            Err(e) => Err(e),
            Ok((f, n)) => match spec_parse_fields(s.skip(n as int), (count - 1) as nat) {
                Err(e) => Err(e),
                Ok((fs, m)) => Ok((seq![f] + fs, n + m)),
            },
        }
    }
}

/// Reads a tuple from the front of `s`.
pub open spec fn spec_parse_tuple(s: Seq<u8>) -> Result<(Seq<Seq<u8>>, nat), ParseError> {
    match spec_get_vi(s) {
        Err(e) => Err(e),
        Ok((count, n)) => match spec_parse_fields(s.skip(n as int), count as nat) {
            Err(e) => Err(e),
            Ok((fs, m)) => Ok((fs, n + m)),
        },
    }
}

proof fn lemma_fields_unfold(fs: Seq<Seq<u8>>, i: int)
    requires
        0 <= i < fs.len(),
    ensures
        spec_fields(fs.skip(i)) == spec_field(fs[i]) + spec_fields(fs.skip(i + 1)),
        spec_fields_check(fs.skip(i)) == (if fs[i].len() >= varint_limit() {
            Err(ParseError::VarIntOverflow { value: fs[i].len() as u64 })
        } else {
            spec_fields_check(fs.skip(i + 1))
        }),
{
    assert(fs.skip(i)[0] == fs[i]);
    assert(fs.skip(i).drop_first() =~= fs.skip(i + 1));
}

impl Tuple {
    /// The first count or length of this tuple that cannot be encoded.
    pub fn check(&self) -> (r: Result<(), ParseError>)
        ensures
            r == spec_tuple_check(self@),
    {
        let ghost t = self@;
        assert(t.len() == self.fields@.len());
        match check_vi(self.fields.len() as u64) {
            Err(e) => {
                return Err(e);
            },
            Ok(()) => {},
        }
        let mut i: usize = 0;
        assert(t.skip(0) =~= t);
        while i < self.fields.len()
            invariant
                i <= t.len(),
                t == self@,
                t.len() < varint_limit(),
                spec_fields_check(t) == spec_fields_check(t.skip(i as int)),
            decreases t.len() - i,
        {
            proof {
                lemma_fields_unfold(t, i as int);
                assert(t[i as int] == self.fields@[i as int].value@);
            }
            match check_vi(self.fields[i].value.len() as u64) {
                Err(e) => {
                    return Err(e);
                },
                Ok(()) => {},
            }
            i = i + 1;
        }
        assert(t.skip(i as int) =~= Seq::<Seq<u8>>::empty());
        Ok(())
    }

    /// The length of this tuple's encoding, when it is at most `cap`.
    pub fn encoded_len(&self, cap: usize) -> (r: Option<usize>)
        requires
            spec_tuple_check(self@) is Ok,
        ensures
            match r {
                Some(n) => n == spec_tuple(self@).len() && n <= cap,
                None => spec_tuple(self@).len() > cap,
            },
    {
        let ghost t = self@;
        let mut acc: usize = vi_len(self.fields.len() as u64);
        if acc > cap {
            return None;
        }
        let mut i: usize = 0;
        assert(t.skip(0) =~= t);
        while i < self.fields.len()
            invariant
                i <= t.len(),
                t == self@,
                acc <= cap,
                spec_tuple(t).len() == acc + spec_fields(t.skip(i as int)).len(),
                spec_fields_check(t.skip(i as int)) is Ok,
            decreases t.len() - i,
        {
            proof {
                lemma_fields_unfold(t, i as int);
            }
            let len = self.fields[i].value.len();
            let n = vi_len(len as u64);
            if len > cap - acc {
                return None;
            }
            if n > cap - acc - len {
                return None;
            }
            acc = acc + n + len;
            i = i + 1;
        }
        assert(t.skip(i as int) =~= Seq::<Seq<u8>>::empty());
        Some(acc)
    }

    /// Appends this tuple's encoding to `buf`.
    pub fn serialize_into(&self, buf: &mut BytesMut)
        requires
            spec_tuple_check(self@) is Ok,
            bytes_mut_view(*old(buf)).len() + spec_tuple(self@).len() + 8 <= isize::MAX,
        ensures
            bytes_mut_view(*final(buf)) == bytes_mut_view(*old(buf)) + spec_tuple(self@),
    {
        let ghost t = self@;
        let ghost s = bytes_mut_view(*buf);
        let ghost target = s + spec_tuple(t);
        put_vi(buf, self.fields.len() as u64);
        let mut i: usize = 0;
        assert(t.skip(0) =~= t);
        assert(target =~= bytes_mut_view(*buf) + spec_fields(t));
        while i < self.fields.len()
            invariant
                i <= t.len(),
                t == self@,
                target == bytes_mut_view(*buf) + spec_fields(t.skip(i as int)),
                spec_fields_check(t.skip(i as int)) is Ok,
                target.len() + 8 <= isize::MAX,
            decreases t.len() - i,
        {
            let ghost cur = bytes_mut_view(*buf);
            let ghost rest = spec_fields(t.skip(i + 1));
            proof {
                lemma_fields_unfold(t, i as int);
                assert(t[i as int] == self.fields@[i as int]@);
            }
            put_vi(buf, self.fields[i].value.len() as u64);
            bytes_mut_extend(buf, self.fields[i].value.as_slice());
            proof {
                assert(cur + (spec_field(t[i as int]) + rest) =~= bytes_mut_view(*buf) + rest);
            }
            i = i + 1;
        }
        assert(t.skip(i as int) =~= Seq::<Seq<u8>>::empty());
        assert(bytes_mut_view(*buf) + Seq::<u8>::empty() =~= bytes_mut_view(*buf));
    }
}

proof fn lemma_parse_field_len(s: Seq<u8>)
    requires
        spec_parse_field(s) is Ok,
    ensures
        1 <= spec_parse_field(s)->Ok_0.1 <= s.len(),
{
    reveal(spec_parse_field);
}

fn parse_field(buf: &mut Bytes) -> (r: Result<TupleField, ParseError>)
    ensures
        match spec_parse_field(bytes_view(*old(buf))) {
            Ok((f, n)) => r is Ok && r->Ok_0@ == f && bytes_view(*final(buf)) == bytes_view(
                *old(buf),
            ).skip(n as int),
            Err(e) => r == Err::<TupleField, ParseError>(e) && is_suffix_of(
                bytes_view(*final(buf)),
                bytes_view(*old(buf)),
            ),
        },
{
    reveal(spec_parse_field);
    let ghost s = bytes_view(*buf);
    let len = match get_vi(buf) {
        Ok(v) => v,
        Err(e) => {
            return Err(e);
        },
    };
    let ghost n = spec_get_vi(s)->Ok_0.1;
    let rem = bytes_remaining(buf);
    if (rem as u64) < len {
        assert(bytes_view(*buf) == s.skip(n as int));
        return Err(
            ParseError::NotEnoughBytes {
                context: "Tuple::deserialize",
                needed: len as usize,
                available: rem,
            },
        );
    }
    let value = bytes_split_front_to_vec(buf, len as usize);
    proof {
        lemma_skip_skip(s, n as int, len as int);
    }
    Ok(TupleField { value })
}

/// After reading some fields of a list of `count` (`done`, taking `consumed` bytes),
/// the outcome of reading the whole list is decided by reading the `k` left.
#[verifier::opaque]
spec fn fields_cont(s: Seq<u8>, count: nat, done: Seq<Seq<u8>>, consumed: nat, k: nat) -> bool {
    match spec_parse_fields(s.skip(consumed as int), k) {
        Ok((fs, m)) => spec_parse_fields(s, count) == Ok::<(Seq<Seq<u8>>, nat), ParseError>(
            (done + fs, consumed + m),
        ),
        Err(e) => spec_parse_fields(s, count) == Err::<(Seq<Seq<u8>>, nat), ParseError>(e),
    }
}

proof fn lemma_fields_cont_start(s: Seq<u8>, count: nat)
    ensures
        fields_cont(s, count, Seq::<Seq<u8>>::empty(), 0, count),
{
    reveal(fields_cont);
    assert(s.skip(0) =~= s);
    match spec_parse_fields(s, count) {
        Ok((fs, m)) => {
            assert(Seq::<Seq<u8>>::empty() + fs =~= fs);
        },
        Err(e) => {},
    }
}

proof fn lemma_fields_cont_step(s: Seq<u8>, count: nat, done: Seq<Seq<u8>>, consumed: nat, k: nat)
    requires
        k > 0,
        consumed <= s.len(),
        fields_cont(s, count, done, consumed, k),
    ensures
        spec_parse_field(s.skip(consumed as int)) is Err ==> spec_parse_fields(s, count) == Err::<
            (Seq<Seq<u8>>, nat),
            ParseError,
        >(spec_parse_field(s.skip(consumed as int))->Err_0),
        spec_parse_field(s.skip(consumed as int)) is Ok ==> ({
            let (f, n) = spec_parse_field(s.skip(consumed as int))->Ok_0;
            &&& consumed + n <= s.len()
            &&& s.skip(consumed as int).skip(n as int) == s.skip((consumed + n) as int)
            &&& fields_cont(s, count, done.push(f), consumed + n, (k - 1) as nat)
        }),
{
    reveal(fields_cont);
    let cur = s.skip(consumed as int);
    if spec_parse_field(cur) is Ok {
        let (f, n) = spec_parse_field(cur)->Ok_0;
        lemma_parse_field_len(cur);
        lemma_skip_skip(s, consumed as int, n as int);
        match spec_parse_fields(cur.skip(n as int), (k - 1) as nat) {
            Ok((fs, m)) => {
                assert(done.push(f) + fs =~= done + (seq![f] + fs));
            },
            Err(e) => {},
        }
    }
}

proof fn lemma_fields_cont_end(s: Seq<u8>, count: nat, done: Seq<Seq<u8>>, consumed: nat)
    requires
        fields_cont(s, count, done, consumed, 0),
    ensures
        spec_parse_fields(s, count) == Ok::<(Seq<Seq<u8>>, nat), ParseError>((done, consumed)),
{
    reveal(fields_cont);
    assert(done + Seq::<Seq<u8>>::empty() =~= done);
}

impl Tuple {
    /// Reads a tuple from the front of `buf`.
    pub fn deserialize(buf: &mut Bytes) -> (r: Result<Tuple, ParseError>)
        ensures
            match spec_parse_tuple(bytes_view(*old(buf))) {
                Ok((t, n)) => r is Ok && r->Ok_0@ == t && bytes_view(*final(buf)) == bytes_view(
                    *old(buf),
                ).skip(n as int),
                Err(e) => r == Err::<Tuple, ParseError>(e) && is_suffix_of(
                    bytes_view(*final(buf)),
                    bytes_view(*old(buf)),
                ),
            },
    {
        let ghost s0 = bytes_view(*buf);
        let count = match get_vi(buf) {
            Ok(v) => v,
            Err(e) => {
                return Err(e);
            },
        };
        let ghost n0 = spec_get_vi(s0)->Ok_0.1;
        let ghost s = bytes_view(*buf);
        proof {
            lemma_get_vi_len(s0);
        }
        let mut out = Tuple::new();
        let mut i: u64 = 0;
        let ghost mut consumed: nat = 0;
        proof {
            lemma_fields_cont_start(s, count as nat);
            assert(s.skip(0) =~= s);
        }
        while i < count
            invariant
                i <= count,
                consumed <= s.len(),
                s == s0.skip(n0 as int),
                n0 <= s0.len(),
                spec_get_vi(s0) == Ok::<(u64, nat), ParseError>((count, n0)),
                s0 == bytes_view(*old(buf)),
                bytes_view(*buf) == s.skip(consumed as int),
                fields_cont(s, count as nat, out@, consumed, (count - i) as nat),
            decreases count - i,
        {
            proof {
                lemma_fields_cont_step(s, count as nat, out@, consumed, (count - i) as nat);
            }
            let f = match parse_field(buf) {
                Ok(f) => f,
                Err(e) => {
                    proof {
                        lemma_suffix_of_skip(bytes_view(*buf), s, consumed as int);
                        lemma_suffix_of_skip(bytes_view(*buf), s0, n0 as int);
                        assert(spec_parse_field(s.skip(consumed as int)) == Err::<
                            (Seq<u8>, nat),
                            ParseError,
                        >(e));
                        assert(spec_parse_fields(s, count as nat) == Err::<
                            (Seq<Seq<u8>>, nat),
                            ParseError,
                        >(e));
                    }
                    return Err(e);
                },
            };
            proof {
                consumed = consumed + spec_parse_field(s.skip(consumed as int))->Ok_0.1;
            }
            out.add(f);
            i = i + 1;
        }
        proof {
            lemma_fields_cont_end(s, count as nat, out@, consumed);
            lemma_skip_skip(s0, n0 as int, consumed as int);
        }
        Ok(out)
    }
}

proof fn lemma_field_roundtrip(f: Seq<u8>, rest: Seq<u8>)
    requires
        f.len() < varint_limit(),
    ensures
        spec_parse_field(spec_field(f) + rest) == Ok::<(Seq<u8>, nat), ParseError>(
            (f, spec_field(f).len()),
        ),
{
    reveal(spec_parse_field);
    let len = f.len() as u64;
    let s = spec_field(f) + rest;
    assert(s =~= spec_vi(len) + (f + rest));
    lemma_vi_roundtrip(len, f + rest);
    let n = spec_vi(len).len();
    assert(s.skip(n as int) =~= f + rest);
    assert((f + rest).take(len as int) =~= f);
}

/// Reading back the encoding of a list of fields gives the list and consumes exactly
/// its encoding, whatever follows.
pub proof fn lemma_fields_roundtrip(fs: Seq<Seq<u8>>, rest: Seq<u8>)
    requires
        spec_fields_check(fs) is Ok,
    ensures
        spec_parse_fields(spec_fields(fs) + rest, fs.len()) == Ok::<
            (Seq<Seq<u8>>, nat),
            ParseError,
        >((fs, spec_fields(fs).len())),
    decreases fs.len(),
{
    if fs.len() == 0 {
        assert(fs =~= Seq::<Seq<u8>>::empty());
    } else {
        let tail = fs.drop_first();
        let s = spec_fields(fs) + rest;
        assert(s =~= spec_field(fs[0]) + (spec_fields(tail) + rest));
        lemma_field_roundtrip(fs[0], spec_fields(tail) + rest);
        let n = spec_field(fs[0]).len();
        assert(s.skip(n as int) =~= spec_fields(tail) + rest);
        lemma_fields_roundtrip(tail, rest);
        assert(seq![fs[0]] + tail =~= fs);
    }
}

/// Reading back the encoding of a tuple gives the tuple and consumes exactly its
/// encoding, whatever follows.
pub proof fn lemma_tuple_roundtrip(t: Seq<Seq<u8>>, rest: Seq<u8>)
    requires
        spec_tuple_check(t) is Ok,
    ensures
        spec_parse_tuple(spec_tuple(t) + rest) == Ok::<(Seq<Seq<u8>>, nat), ParseError>(
            (t, spec_tuple(t).len()),
        ),
{
    let s = spec_tuple(t) + rest;
    let c = t.len() as u64;
    assert(s =~= spec_vi(c) + (spec_fields(t) + rest));
    lemma_vi_roundtrip(c, spec_fields(t) + rest);
    assert(s.skip(spec_vi(c).len() as int) =~= spec_fields(t) + rest);
    lemma_fields_roundtrip(t, rest);
}

proof fn lemma_field_extend(s: Seq<u8>, t: Seq<u8>)
    requires
        spec_parse_field(s) is Ok,
    ensures
        spec_parse_field(s + t) == spec_parse_field(s),
{
    reveal(spec_parse_field);
    lemma_vi_extend(s, t);
    let n = spec_get_vi(s)->Ok_0.1;
    let len = spec_get_vi(s)->Ok_0.0;
    assert((s + t).skip(n as int) =~= s.skip(n as int) + t);
    assert((s.skip(n as int) + t).take(len as int) =~= s.skip(n as int).take(len as int));
}

proof fn lemma_fields_extend(s: Seq<u8>, t: Seq<u8>, count: nat)
    requires
        spec_parse_fields(s, count) is Ok,
    ensures
        spec_parse_fields(s + t, count) == spec_parse_fields(s, count),
        spec_parse_fields(s, count)->Ok_0.1 <= s.len(),
    decreases count,
{
    if count > 0 {
        lemma_field_extend(s, t);
        lemma_parse_field_len(s);
        let n = spec_parse_field(s)->Ok_0.1;
        assert((s + t).skip(n as int) =~= s.skip(n as int) + t);
        lemma_fields_extend(s.skip(n as int), t, (count - 1) as nat);
    }
}

/// Bytes after a tuple do not change how it reads, and a successful read consumes no
/// more than it was given.
pub proof fn lemma_tuple_extend(s: Seq<u8>, t: Seq<u8>)
    requires
        spec_parse_tuple(s) is Ok,
    ensures
        spec_parse_tuple(s + t) == spec_parse_tuple(s),
        spec_parse_tuple(s)->Ok_0.1 <= s.len(),
{
    lemma_vi_extend(s, t);
    let n = spec_get_vi(s)->Ok_0.1;
    let c = spec_get_vi(s)->Ok_0.0;
    assert((s + t).skip(n as int) =~= s.skip(n as int) + t);
    lemma_fields_extend(s.skip(n as int), t, c as nat);
}

/// Fields joined with a `/` between each two.
pub open spec fn join_path(fs: Seq<Seq<u8>>) -> Seq<u8>
    decreases fs.len(),
{
    if fs.len() == 0 {
        Seq::<u8>::empty()
    } else if fs.len() == 1 {
        fs[0]
    } else {
        fs[0] + seq![0x2Fu8] + join_path(fs.drop_first())
    }
}

proof fn lemma_split_path_from_rejoins(b: Seq<u8>, cur: Seq<u8>)
    requires
        forall|j: int| 0 <= j < cur.len() ==> cur[j] != 0x2F,
    ensures
        split_path_from(b, cur).len() >= 1,
        join_path(split_path_from(b, cur)) == cur + b,
        forall|i: int, j: int|
            0 <= i < split_path_from(b, cur).len() && 0 <= j < split_path_from(b, cur)[i].len()
                ==> #[trigger] split_path_from(b, cur)[i][j] != 0x2F,
    decreases b.len(),
{
    let fs = split_path_from(b, cur);
    if b.len() == 0 {
        assert(cur + b =~= cur);
    } else if b[0] == 0x2F {
        let r = split_path_from(b.drop_first(), Seq::<u8>::empty());
        lemma_split_path_from_rejoins(b.drop_first(), Seq::<u8>::empty());
        assert(fs.drop_first() =~= r);
        assert(fs[0] == cur);
        assert(Seq::<u8>::empty() + b.drop_first() =~= b.drop_first());
        assert(cur + seq![0x2Fu8] + b.drop_first() =~= cur + b);
        assert forall|i: int, j: int|
            0 <= i < fs.len() && 0 <= j < fs[i].len() implies #[trigger] fs[i][j] != 0x2F by {
            if i > 0 {
                assert(fs[i] == r[i - 1]);
            }
        }
    } else {
        let c2 = cur.push(b[0]);
        lemma_split_path_from_rejoins(b.drop_first(), c2);
        assert(c2 + b.drop_first() =~= cur + b);
    }
}

/// Splitting a path at `/` loses nothing and keeps no separator: there is at least one
/// field, the fields joined again with `/` between them give back the path, and no
/// field holds a `/`.
pub proof fn lemma_split_path_rejoins(b: Seq<u8>)
    ensures
        split_path(b).len() >= 1,
        join_path(split_path(b)) == b,
        forall|i: int, j: int|
            0 <= i < split_path(b).len() && 0 <= j < split_path(b)[i].len() ==> #[trigger] split_path(
                b,
            )[i][j] != 0x2F,
{
    lemma_split_path_from_rejoins(b, Seq::<u8>::empty());
    assert(Seq::<u8>::empty() + b =~= b);
}

} // verus!
