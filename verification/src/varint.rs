//! QUIC variable-length integers (RFC 9000, section 16): the two high bits of the
//! first byte give the width (1, 2, 4 or 8 bytes), the remaining bits hold the value
//! in big-endian order.
use crate::buffer::{bytes_get_u8, bytes_mut_put_u8, bytes_mut_view, bytes_remaining, bytes_view};
use crate::error::ParseError;
use bytes::{Bytes, BytesMut};
use vstd::prelude::*;

verus! {

/// One more than the largest value a variable-length integer can carry.
pub open spec fn varint_limit() -> nat {
    0x4000_0000_0000_0000
}

/// The canonical (shortest) encoding of `v`; meaningful for `v < varint_limit()`.
pub open spec fn spec_vi(v: u64) -> Seq<u8> {
    if v < 0x40 {
        seq![v as u8]
    } else if v < 0x4000 {
        seq![(0x40 + v / 0x100) as u8, (v % 0x100) as u8]
    } else if v < 0x4000_0000 {
        seq![
            (0x80 + v / 0x100_0000) as u8,
            ((v / 0x1_0000) % 0x100) as u8,
            ((v / 0x100) % 0x100) as u8,
            (v % 0x100) as u8,
        ]
    } else {
        seq![
            (0xC0 + v / 0x100_0000_0000_0000) as u8,
            ((v / 0x1_0000_0000_0000) % 0x100) as u8,
            ((v / 0x100_0000_0000) % 0x100) as u8,
            ((v / 0x1_0000_0000) % 0x100) as u8,
            ((v / 0x100_0000) % 0x100) as u8,
            ((v / 0x1_0000) % 0x100) as u8,
            ((v / 0x100) % 0x100) as u8,
            (v % 0x100) as u8,
        ]
    }
}

/// `Ok` with the encoding of `v` when it fits, the overflow error otherwise.
pub open spec fn spec_vi_checked(v: u64) -> Result<(), ParseError> {
    if v < varint_limit() {
        Ok(())
    } else {
        Err(ParseError::VarIntOverflow { value: v })
    }
}

/// The width announced by the first byte of an encoding.
pub open spec fn vi_width(b0: u8) -> nat {
    if b0 < 0x40 {
        1
    } else if b0 < 0x80 {
        2
    } else if b0 < 0xC0 {
        4
    } else {
        8
    }
}

/// The number a sequence of bytes spells in big-endian order.
pub open spec fn be_value(s: Seq<u8>) -> nat
    decreases s.len(),
{
    if s.len() == 0 {
        0
    } else {
        be_value(s.drop_last()) * 256 + s.last() as nat
    }
}

/// What reading a variable-length integer from the front of `s` gives: the value and
/// the number of bytes it took, or the error.
pub open spec fn spec_get_vi(s: Seq<u8>) -> Result<(u64, nat), ParseError> {
    if s.len() == 0 {
        Err(ParseError::NotEnoughBytes { context: "get_vi", needed: 1, available: 0 })
    } else if s.len() < vi_width(s[0]) {
        Err(
            ParseError::NotEnoughBytes {
                context: "get_vi",
                needed: vi_width(s[0]) as usize,
                available: s.len() as usize,
            },
        )
    } else {
        Ok(
            (
                be_value(seq![s[0] % 0x40] + s.subrange(1, vi_width(s[0]) as int)) as u64,
                vi_width(s[0]),
            ),
        )
    }
}

/// `a` is `b` with some bytes taken off the front.
pub open spec fn is_suffix_of(a: Seq<u8>, b: Seq<u8>) -> bool {
    exists|k: int| 0 <= k <= b.len() && a == #[trigger] b.skip(k)
}

/// Upper bound on the value read after `i` bytes of an encoding.
spec fn vi_cap(i: nat) -> nat {
    if i <= 1 {
        0x40
    } else if i == 2 {
        0x4000
    } else if i == 3 {
        0x40_0000
    } else if i == 4 {
        0x4000_0000
    } else if i == 5 {
        0x40_0000_0000
    } else if i == 6 {
        0x4000_0000_0000
    } else if i == 7 {
        0x40_0000_0000_0000
    } else {
        0x4000_0000_0000_0000
    }
}

proof fn lemma_be_value_push(s: Seq<u8>, b: u8)
    ensures
        be_value(s.push(b)) == be_value(s) * 256 + b,
{
    assert(s.push(b).drop_last() =~= s);
}

/// Reads a variable-length integer from the front of `buf`.
pub fn get_vi(buf: &mut Bytes) -> (r: Result<u64, ParseError>)
    ensures
        match spec_get_vi(bytes_view(*old(buf))) {
            Ok((v, n)) => r == Ok::<u64, ParseError>(v) && bytes_view(*final(buf)) == bytes_view(
                *old(buf),
            ).skip(n as int),
            Err(e) => r == Err::<u64, ParseError>(e) && is_suffix_of(
                bytes_view(*final(buf)),
                bytes_view(*old(buf)),
            ),
        },
{
    let ghost s = bytes_view(*buf);
    let rem = bytes_remaining(buf);
    if rem == 0 {
        assert(bytes_view(*buf) == s.skip(0));
        return Err(ParseError::NotEnoughBytes { context: "get_vi", needed: 1, available: 0 });
    }
    let b0 = bytes_get_u8(buf);
    let w: usize = if b0 < 0x40 {
        1
    } else if b0 < 0x80 {
        2
    } else if b0 < 0xC0 {
        4
    } else {
        8
    };
    assert(w == vi_width(s[0]));
    if rem < w {
        assert(bytes_view(*buf) == s.skip(1));
        return Err(ParseError::NotEnoughBytes { context: "get_vi", needed: w, available: rem });
    }
    let mut v: u64 = (b0 % 0x40) as u64;
    let mut i: usize = 1;
    let ghost first: Seq<u8> = seq![s[0] % 0x40];
    proof {
        reveal_with_fuel(be_value, 2);
        assert(first + s.subrange(1, 1) =~= first);
        assert(first.drop_last() =~= Seq::<u8>::empty());
    }
    while i < w
        invariant
            1 <= i <= w,
            w == vi_width(s[0]),
            w <= s.len(),
            w <= 8,
            bytes_view(*buf) == s.skip(i as int),
            v == be_value(first + s.subrange(1, i as int)),
            v < vi_cap(i as nat),
        decreases w - i,
    {
        let b = bytes_get_u8(buf);
        proof {
            let t = first + s.subrange(1, i as int);
            assert(b == s[i as int]);
            assert(first + s.subrange(1, i + 1) =~= t.push(b));
            lemma_be_value_push(t, b);
            assert(s.skip(i as int).drop_first() =~= s.skip(i + 1));
        }
        v = v * 256 + b as u64;
        i = i + 1;
    }
    Ok(v)
}

/// Appends the canonical encoding of `v`.
pub fn put_vi(buf: &mut BytesMut, v: u64)
    requires
        v < varint_limit(),
        bytes_mut_view(*old(buf)).len() + 8 <= isize::MAX,
    ensures
        bytes_mut_view(*final(buf)) == bytes_mut_view(*old(buf)) + spec_vi(v),
{
    let ghost s = bytes_mut_view(*buf);
    if v < 0x40 {
        bytes_mut_put_u8(buf, v as u8);
        assert(bytes_mut_view(*buf) =~= s + spec_vi(v));
    } else if v < 0x4000 {
        bytes_mut_put_u8(buf, (0x40 + v / 0x100) as u8);
        bytes_mut_put_u8(buf, (v % 0x100) as u8);
        assert(bytes_mut_view(*buf) =~= s + spec_vi(v));
    } else if v < 0x4000_0000 {
        bytes_mut_put_u8(buf, (0x80 + v / 0x100_0000) as u8);
        bytes_mut_put_u8(buf, ((v / 0x1_0000) % 0x100) as u8);
        bytes_mut_put_u8(buf, ((v / 0x100) % 0x100) as u8);
        bytes_mut_put_u8(buf, (v % 0x100) as u8);
        assert(bytes_mut_view(*buf) =~= s + spec_vi(v));
    } else {
        bytes_mut_put_u8(buf, (0xC0 + v / 0x100_0000_0000_0000) as u8);
        bytes_mut_put_u8(buf, ((v / 0x1_0000_0000_0000) % 0x100) as u8);
        bytes_mut_put_u8(buf, ((v / 0x100_0000_0000) % 0x100) as u8);
        bytes_mut_put_u8(buf, ((v / 0x1_0000_0000) % 0x100) as u8);
        bytes_mut_put_u8(buf, ((v / 0x100_0000) % 0x100) as u8);
        bytes_mut_put_u8(buf, ((v / 0x1_0000) % 0x100) as u8);
        bytes_mut_put_u8(buf, ((v / 0x100) % 0x100) as u8);
        bytes_mut_put_u8(buf, (v % 0x100) as u8);
        assert(bytes_mut_view(*buf) =~= s + spec_vi(v));
    }
}

/// The length of the canonical encoding of `v`.
pub fn vi_len(v: u64) -> (r: usize)
    ensures
        r as int == spec_vi(v).len(),
        1 <= r <= 8,
{
    if v < 0x40 {
        1
    } else if v < 0x4000 {
        2
    } else if v < 0x4000_0000 {
        4
    } else {
        8
    }
}

/// Whether `v` can be encoded, as the error the encoder reports.
pub fn check_vi(v: u64) -> (r: Result<(), ParseError>)
    ensures
        r == spec_vi_checked(v),
{
    if v < 0x4000_0000_0000_0000 {
        Ok(())
    } else {
        Err(ParseError::VarIntOverflow { value: v })
    }
}

/// `b.skip(i).skip(j)` is `b.skip(i + j)`.
pub proof fn lemma_skip_skip(b: Seq<u8>, i: int, j: int)
    requires
        0 <= i,
        0 <= j,
        i + j <= b.len(),
    ensures
        b.skip(i).skip(j) == b.skip(i + j),
{
    assert(b.skip(i).skip(j) =~= b.skip(i + j));
}

/// A suffix of a suffix is a suffix.
pub proof fn lemma_suffix_of_skip(a: Seq<u8>, b: Seq<u8>, k: int)
    requires
        0 <= k <= b.len(),
        is_suffix_of(a, b.skip(k)),
    ensures
        is_suffix_of(a, b),
{
    let j = choose|j: int| 0 <= j <= b.skip(k).len() && a == #[trigger] b.skip(k).skip(j);
    lemma_skip_skip(b, k, j);
}

/// A successful read consumes at least one byte and no more than it was given.
pub proof fn lemma_get_vi_len(s: Seq<u8>)
    requires
        spec_get_vi(s) is Ok,
    ensures
        1 <= spec_get_vi(s)->Ok_0.1 <= s.len(),
{
}

/// The encoding of a value in range is one to eight bytes long.
pub proof fn lemma_vi_len(v: u64)
    requires
        v < varint_limit(),
    ensures
        1 <= spec_vi(v).len() <= 8,
{
}

proof fn lemma_be_value_single(b0: u8)
    ensures
        be_value(seq![b0]) == b0,
{
    assert(seq![b0].drop_last() =~= Seq::<u8>::empty());
    assert(be_value(Seq::<u8>::empty()) == 0);
}

proof fn lemma_be_value_four(b0: u8, b1: u8, b2: u8, b3: u8)
    ensures
        be_value(seq![b0, b1, b2, b3]) == ((b0 * 256 + b1) * 256 + b2) * 256 + b3,
{
    lemma_be_value_single(b0);
    lemma_be_value_push(seq![b0], b1);
    assert(seq![b0].push(b1) =~= seq![b0, b1]);
    lemma_be_value_push(seq![b0, b1], b2);
    assert(seq![b0, b1].push(b2) =~= seq![b0, b1, b2]);
    lemma_be_value_push(seq![b0, b1, b2], b3);
    assert(seq![b0, b1, b2].push(b3) =~= seq![b0, b1, b2, b3]);
}

proof fn lemma_be_value_eight(b0: u8, b1: u8, b2: u8, b3: u8, b4: u8, b5: u8, b6: u8, b7: u8)
    ensures
        be_value(seq![b0, b1, b2, b3, b4, b5, b6, b7]) == (((be_value(seq![b0, b1, b2, b3]) * 256
            + b4) * 256 + b5) * 256 + b6) * 256 + b7,
{
    let a = seq![b0, b1, b2, b3];
    lemma_be_value_push(a, b4);
    assert(a.push(b4) =~= seq![b0, b1, b2, b3, b4]);
    lemma_be_value_push(seq![b0, b1, b2, b3, b4], b5);
    assert(seq![b0, b1, b2, b3, b4].push(b5) =~= seq![b0, b1, b2, b3, b4, b5]);
    lemma_be_value_push(seq![b0, b1, b2, b3, b4, b5], b6);
    assert(seq![b0, b1, b2, b3, b4, b5].push(b6) =~= seq![b0, b1, b2, b3, b4, b5, b6]);
    lemma_be_value_push(seq![b0, b1, b2, b3, b4, b5, b6], b7);
    assert(seq![b0, b1, b2, b3, b4, b5, b6].push(b7) =~= seq![b0, b1, b2, b3, b4, b5, b6, b7]);
}

/// Splitting a number below 2^32 into its four big-endian bytes and joining them back.
proof fn lemma_four_bytes(v: int)
    requires
        0 <= v < 0x1_0000_0000,
    ensures
        v == (((v / 0x100_0000) * 256 + (v / 0x1_0000) % 0x100) * 256 + (v / 0x100) % 0x100) * 256
            + v % 0x100,
{
    let q1 = v / 0x100;
    let q2 = q1 / 0x100;
    let q3 = q2 / 0x100;
    assert(v == q1 * 256 + v % 256);
    assert(q1 == q2 * 256 + q1 % 256);
    assert(q2 == q3 * 256 + q2 % 256);
    assert(v / 0x1_0000 == q2) by (nonlinear_arith)
        requires
            q1 == v / 0x100,
            q2 == q1 / 0x100,
            v >= 0,
    ;
    assert(v / 0x100_0000 == q3) by (nonlinear_arith)
        requires
            q1 == v / 0x100,
            q2 == q1 / 0x100,
            q3 == q2 / 0x100,
            v >= 0,
    ;
}

/// Reading back an encoding gives the value and consumes exactly the encoding,
/// whatever follows it.
pub proof fn lemma_vi_roundtrip(v: u64, rest: Seq<u8>)
    requires
        v < varint_limit(),
    ensures
        spec_get_vi(spec_vi(v) + rest) == Ok::<(u64, nat), ParseError>((v, spec_vi(v).len())),
{
    let e = spec_vi(v);
    let s = e + rest;
    if v < 0x40 {
        let t = seq![s[0] % 0x40] + s.subrange(1, 1);
        assert(t =~= seq![v as u8]);
        lemma_be_value_single(v as u8);
    } else if v < 0x4000 {
        let t = seq![s[0] % 0x40] + s.subrange(1, 2);
        assert(t =~= seq![(v / 0x100) as u8].push((v % 0x100) as u8));
        lemma_be_value_single((v / 0x100) as u8);
        lemma_be_value_push(seq![(v / 0x100) as u8], (v % 0x100) as u8);
    } else if v < 0x4000_0000 {
        lemma_vi_roundtrip_four(v, rest);
    } else {
        lemma_vi_roundtrip_eight(v, rest);
    }
}

proof fn lemma_vi_roundtrip_four(v: u64, rest: Seq<u8>)
    requires
        0x4000 <= v < 0x4000_0000,
    ensures
        spec_get_vi(spec_vi(v) + rest) == Ok::<(u64, nat), ParseError>((v, spec_vi(v).len())),
{
    let s = spec_vi(v) + rest;
    let t = seq![s[0] % 0x40] + s.subrange(1, 4);
    let b0 = (v / 0x100_0000) as u8;
    let b1 = ((v / 0x1_0000) % 0x100) as u8;
    let b2 = ((v / 0x100) % 0x100) as u8;
    let b3 = (v % 0x100) as u8;
    assert(s[0] % 0x40 == b0);
    assert(t =~= seq![b0, b1, b2, b3]);
    lemma_be_value_four(b0, b1, b2, b3);
    lemma_four_bytes(v as int);
}

#[verifier::rlimit(30)]
proof fn lemma_vi_roundtrip_eight(v: u64, rest: Seq<u8>)
    requires
        0x4000_0000 <= v < varint_limit(),
    ensures
        spec_get_vi(spec_vi(v) + rest) == Ok::<(u64, nat), ParseError>((v, spec_vi(v).len())),
{
    let s = spec_vi(v) + rest;
    let t = seq![s[0] % 0x40] + s.subrange(1, 8);
    let hi = v / 0x1_0000_0000;
    let lo = v % 0x1_0000_0000;
    let b0 = (v / 0x100_0000_0000_0000) as u8;
    let b1 = ((v / 0x1_0000_0000_0000) % 0x100) as u8;
    let b2 = ((v / 0x100_0000_0000) % 0x100) as u8;
    let b3 = ((v / 0x1_0000_0000) % 0x100) as u8;
    let b4 = ((v / 0x100_0000) % 0x100) as u8;
    let b5 = ((v / 0x1_0000) % 0x100) as u8;
    let b6 = ((v / 0x100) % 0x100) as u8;
    let b7 = (v % 0x100) as u8;
    assert(s[0] % 0x40 == b0);
    assert(t =~= seq![b0, b1, b2, b3, b4, b5, b6, b7]);
    lemma_be_value_eight(b0, b1, b2, b3, b4, b5, b6, b7);
    lemma_be_value_four(b0, b1, b2, b3);
    lemma_four_bytes(hi as int);
    lemma_four_bytes(lo as int);
    assert(v == hi * 0x1_0000_0000 + lo);
    assert(b0 == hi / 0x100_0000 && b1 == (hi / 0x1_0000) % 0x100 && b2 == (hi / 0x100) % 0x100
        && b3 == hi % 0x100) by (nonlinear_arith)
        requires
            hi == v / 0x1_0000_0000,
            v >= 0,
            b0 == v / 0x100_0000_0000_0000,
            b1 == (v / 0x1_0000_0000_0000) % 0x100,
            b2 == (v / 0x100_0000_0000) % 0x100,
            b3 == (v / 0x1_0000_0000) % 0x100,
    ;
    assert(b4 == lo / 0x100_0000 && b5 == (lo / 0x1_0000) % 0x100 && b6 == (lo / 0x100) % 0x100
        && b7 == lo % 0x100) by (nonlinear_arith)
        requires
            lo == v % 0x1_0000_0000,
            v >= 0,
            b4 == (v / 0x100_0000) % 0x100,
            b5 == (v / 0x1_0000) % 0x100,
            b6 == (v / 0x100) % 0x100,
            b7 == v % 0x100,
    ;
}

/// A successful read looks only at the bytes it consumes: appending bytes leaves it
/// unchanged.
pub proof fn lemma_vi_extend(s: Seq<u8>, t: Seq<u8>)
    requires
        spec_get_vi(s) is Ok,
    ensures
        spec_get_vi(s + t) == spec_get_vi(s),
        spec_get_vi(s)->Ok_0.1 <= s.len(),
{
    let w = vi_width(s[0]);
    assert((s + t).subrange(1, w as int) =~= s.subrange(1, w as int));
    assert((s + t)[0] == s[0]);
}

/// The canonical encoding of a value below 2^62 holds the value in big-endian order,
/// with its width in the two high bits of the first byte: one byte tagged 0b00 below
/// 2^6, two bytes tagged 0b01 below 2^14, four bytes tagged 0b10 below 2^30, and eight
/// bytes tagged 0b11 above.
#[verifier::rlimit(30)]
pub proof fn lemma_vi_layout(v: u64)
    requires
        v < varint_limit(),
    ensures
        v < 0x40 ==> spec_vi(v) == seq![v as u8],
        0x40 <= v < 0x4000 ==> spec_vi(v).len() == 2 && be_value(spec_vi(v)) == v + 0x4000,
        0x4000 <= v < 0x4000_0000 ==> spec_vi(v).len() == 4 && be_value(spec_vi(v)) == v
            + 0x8000_0000,
        0x4000_0000 <= v ==> spec_vi(v).len() == 8 && be_value(spec_vi(v)) == v
            + 0xC000_0000_0000_0000,
{
    if v < 0x40 {
    } else if v < 0x4000 {
        let b0 = (0x40 + v / 0x100) as u8;
        let b1 = (v % 0x100) as u8;
        assert(spec_vi(v) =~= seq![b0].push(b1));
        lemma_be_value_single(b0);
        lemma_be_value_push(seq![b0], b1);
        assert(b0 == 0x40 + v / 0x100);
        assert(b1 == v % 0x100);
    } else if v < 0x4000_0000 {
        let b0 = (0x80 + v / 0x100_0000) as u8;
        let b1 = ((v / 0x1_0000) % 0x100) as u8;
        let b2 = ((v / 0x100) % 0x100) as u8;
        let b3 = (v % 0x100) as u8;
        assert(spec_vi(v) =~= seq![b0, b1, b2, b3]);
        lemma_be_value_four(b0, b1, b2, b3);
        lemma_four_bytes(v as int);
        assert(b0 == 0x80 + v / 0x100_0000);
    } else {
        let hi = v / 0x1_0000_0000;
        let lo = v % 0x1_0000_0000;
        let c0 = v / 0x100_0000_0000_0000;
        let b0 = (0xC0 + v / 0x100_0000_0000_0000) as u8;
        let b1 = ((v / 0x1_0000_0000_0000) % 0x100) as u8;
        let b2 = ((v / 0x100_0000_0000) % 0x100) as u8;
        let b3 = ((v / 0x1_0000_0000) % 0x100) as u8;
        let b4 = ((v / 0x100_0000) % 0x100) as u8;
        let b5 = ((v / 0x1_0000) % 0x100) as u8;
        let b6 = ((v / 0x100) % 0x100) as u8;
        let b7 = (v % 0x100) as u8;
        assert(spec_vi(v) =~= seq![b0, b1, b2, b3, b4, b5, b6, b7]);
        lemma_be_value_eight(b0, b1, b2, b3, b4, b5, b6, b7);
        lemma_be_value_four(b0, b1, b2, b3);
        lemma_four_bytes(hi as int);
        lemma_four_bytes(lo as int);
        assert(v == hi * 0x1_0000_0000 + lo);
        assert(b0 == 0xC0 + c0);
        assert(c0 == hi / 0x100_0000 && b1 == (hi / 0x1_0000) % 0x100 && b2 == (hi / 0x100)
            % 0x100 && b3 == hi % 0x100) by (nonlinear_arith)
            requires
                hi == v / 0x1_0000_0000,
                v >= 0,
                c0 == v / 0x100_0000_0000_0000,
                b1 == (v / 0x1_0000_0000_0000) % 0x100,
                b2 == (v / 0x100_0000_0000) % 0x100,
                b3 == (v / 0x1_0000_0000) % 0x100,
        ;
        assert(b4 == lo / 0x100_0000 && b5 == (lo / 0x1_0000) % 0x100 && b6 == (lo / 0x100) % 0x100
            && b7 == lo % 0x100) by (nonlinear_arith)
            requires
                lo == v % 0x1_0000_0000,
                v >= 0,
                b4 == (v / 0x100_0000) % 0x100,
                b5 == (v / 0x1_0000) % 0x100,
                b6 == (v / 0x100) % 0x100,
                b7 == v % 0x100,
        ;
    }
}

} // verus!
