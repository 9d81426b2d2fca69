//! Small textual formats of the client: the `name:priority` form of an extra track
//! and the file names of a track's video chunks.
use vstd::prelude::*;
use vstd::string::StringSliceAdditionalSpecFns;

verus! {

/// The value of a string of decimal digits.
pub open spec fn decimal_value(d: Seq<u8>) -> nat
    decreases d.len(),
{
    if d.len() == 0 {
        0
    } else {
        decimal_value(d.drop_last()) * 10 + (d.last() - 0x30) as nat
    }
}

pub open spec fn is_digit(c: u8) -> bool {
    0x30 <= c <= 0x39
}

/// Some byte of `d` is not a decimal digit.
pub open spec fn has_non_digit(d: Seq<u8>) -> bool {
    exists|i: int| 0 <= i < d.len() && !is_digit(#[trigger] d[i])
}

/// `b` without its leading `+`, if it has one.
pub open spec fn without_plus(b: Seq<u8>) -> Seq<u8> {
    if b.len() > 0 && b[0] == 0x2B {
        b.drop_first()
    } else {
        b
    }
}

/// What `str::parse::<u8>` accepts: an optional `+`, then at least one decimal digit
/// and nothing else, of value at most 255.
pub open spec fn spec_parse_u8(b: Seq<u8>) -> Option<u8> {
    let d = without_plus(b);
    if d.len() == 0 {
        None
    } else if has_non_digit(d) {
        None
    } else if decimal_value(d) > 255 {
        None
    } else {
        Some(decimal_value(d) as u8)
    }
}

proof fn lemma_decimal_value_push(d: Seq<u8>, c: u8)
    ensures
        decimal_value(d.push(c)) == decimal_value(d) * 10 + (c - 0x30) as nat,
{
    assert(d.push(c).drop_last() =~= d);
}

proof fn lemma_decimal_value_mono(d: Seq<u8>, k: int)
    requires
        0 <= k <= d.len(),
        forall|i: int| 0 <= i < d.len() ==> is_digit(#[trigger] d[i]),
    ensures
        decimal_value(d.take(k)) <= decimal_value(d),
    decreases d.len() - k,
{
    if k < d.len() {
        lemma_decimal_value_mono(d, k + 1);
        assert(d.take(k + 1) =~= d.take(k).push(d[k]));
        lemma_decimal_value_push(d.take(k), d[k]);
    } else {
        assert(d.take(k) =~= d);
    }
}

/// Parses a decimal `u8` as `str::parse::<u8>` does, giving `None` where it fails.
pub fn parse_u8(b: &[u8]) -> (r: Option<u8>)
    ensures
        r == spec_parse_u8(b@),
{
    let ghost s = b@;
    let start: usize = if b.len() > 0 && b[0] == 0x2B {
        1
    } else {
        0
    };
    let ghost d = s.skip(start as int);
    assert(d =~= without_plus(s));
    if start == b.len() {
        return None;
    }
    let mut acc: u64 = 0;
    let mut i: usize = start;
    let mut big = false;
    while i < b.len()
        invariant
            start <= i <= s.len(),
            s == b@,
            d == s.skip(start as int),
            d == without_plus(s),
            d.len() > 0,
            forall|j: int| 0 <= j < i - start ==> is_digit(#[trigger] d[j]),
            !big ==> acc == decimal_value(d.take(i - start)),
            !big ==> acc <= 255,
            big ==> decimal_value(d.take(i - start)) > 255,
        decreases s.len() - i,
    {
        let c = b[i];
        if c < 0x30 || c > 0x39 {
            assert(!is_digit(d[i - start]));
            return None;
        }
        proof {
            assert(d.take(i - start + 1) =~= d.take(i - start).push(c));
            lemma_decimal_value_push(d.take(i - start), c);
        }
        if !big {
            acc = acc * 10 + (c - 0x30) as u64;
            if acc > 255 {
                big = true;
            }
        }
        i = i + 1;
    }
    assert(d.take(i - start) =~= d);
    if big {
        None
    } else {
        Some(acc as u8)
    }
}

/// The byte that separates an extra track's name from its priority.
pub open spec fn priority_separator() -> u8 {
    0x3A
}

/// Splits an extra-track argument `name:priority` at its last `:` and reads the
/// priority; `None` when there is no `:` or the priority is not a `u8`.
pub fn parse_extra_track(s: &str) -> (r: Option<(Vec<u8>, u8)>)
    ensures
        ({
            let b = s.spec_bytes();
            match r {
                None => !b.contains(priority_separator()) || ({
                    let i = choose|i: int|
                        0 <= i < b.len() && b[i] == priority_separator() && !b.skip(i + 1).contains(
                            priority_separator(),
                        );
                    spec_parse_u8(b.skip(i + 1)) is None
                }),
                Some((name, priority)) => {
                    let i = name@.len() as int;
                    &&& i < b.len()
                    &&& b[i] == priority_separator()
                    &&& name@ == b.take(i)
                    &&& !b.skip(i + 1).contains(priority_separator())
                    &&& spec_parse_u8(b.skip(i + 1)) == Some(priority)
                },
            }
        }),
{
    let bytes = s.as_bytes();
    let ghost b = bytes@;
    let mut i: usize = bytes.len();
    while i > 0
        invariant
            i <= b.len(),
            b == bytes@,
            b == s.spec_bytes(),
            forall|j: int| i <= j < b.len() ==> b[j] != priority_separator(),
        decreases i,
    {
        if bytes[i - 1] == 0x3A {
            let k = i - 1;
            assert(!b.skip(k + 1).contains(priority_separator())) by {
                if b.skip(k + 1).contains(priority_separator()) {
                    let t = b.skip(k + 1);
                    let j = choose|j: int| 0 <= j < t.len() && #[trigger] t[j] == priority_separator();
                    assert(b[k + 1 + j] == priority_separator());
                }
            }
            assert forall|m: int|
                0 <= m < b.len() && b[m] == priority_separator() && !b.skip(m + 1).contains(
                    priority_separator(),
                ) implies m == k by {
                if m < k {
                    assert(b.skip(m + 1)[k - m - 1] == b[k as int]);
                }
            }
            let mut rest: Vec<u8> = Vec::new();
            let mut j: usize = i;
            while j < bytes.len()
                invariant
                    i <= j <= b.len(),
                    b == bytes@,
                    rest@ == b.subrange(i as int, j as int),
                decreases b.len() - j,
            {
                rest.push(bytes[j]);
                j = j + 1;
                assert(rest@ =~= b.subrange(i as int, j as int));
            }
            assert(rest@ =~= b.skip(i as int));
            let p = match parse_u8(rest.as_slice()) {
                Some(p) => p,
                None => {
                    return None;
                },
            };
            let mut name: Vec<u8> = Vec::new();
            let mut j: usize = 0;
            while j < k
                invariant
                    j <= k,
                    k < b.len(),
                    b == bytes@,
                    name@ == b.take(j as int),
                decreases k - j,
            {
                name.push(bytes[j]);
                j = j + 1;
                assert(name@ =~= b.take(j as int));
            }
            return Some((name, p));
        }
        i = i - 1;
    }
    assert(!b.contains(priority_separator())) by {
        if b.contains(priority_separator()) {
            let j = choose|j: int| 0 <= j < b.len() && b[j] == priority_separator();
            assert(b[j] != priority_separator());
        }
    }
    None
}

/// The decimal digits of `n`, most significant first, without leading zeros.
pub open spec fn decimal_digits(n: nat) -> Seq<u8>
    decreases n,
{
    if n < 10 {
        seq![(0x30 + n) as u8]
    } else {
        decimal_digits(n / 10).push((0x30 + n % 10) as u8)
    }
}

/// `d` left-padded with `0` digits to at least `width` characters.
pub open spec fn zero_pad(d: Seq<u8>, width: nat) -> Seq<u8> {
    if d.len() >= width {
        d
    } else {
        Seq::new((width - d.len()) as nat, |i: int| 0x30u8) + d
    }
}

/// The file name of the chunk of group `group`: `out`, the group number in at least
/// three digits, `.mp4`.
pub open spec fn spec_chunk_file_name(group: u64) -> Seq<u8> {
    seq![0x6Fu8, 0x75, 0x74] + zero_pad(decimal_digits(group as nat), 3) + seq![
        0x2Eu8,
        0x6D,
        0x70,
        0x34,
    ]
}

fn push_decimal(out: &mut Vec<u8>, n: u64)
    ensures
        final(out)@ == old(out)@ + decimal_digits(n as nat),
    decreases n,
{
    if n >= 10 {
        push_decimal(out, n / 10);
    }
    let ghost mid = out@;
    out.push((0x30 + n % 10) as u8);
    proof {
        if n >= 10 {
            assert(out@ =~= old(out)@ + decimal_digits(n as nat));
        } else {
            assert(out@ =~= old(out)@ + decimal_digits(n as nat));
        }
    }
}

/// The file name of the video chunk of group `group`, as `format!("out{:03}.mp4", group)`
/// writes it.
pub fn chunk_file_name(group: u64) -> (r: Vec<u8>)
    ensures
        r@ == spec_chunk_file_name(group),
{
    let mut digits: Vec<u8> = Vec::new();
    push_decimal(&mut digits, group);
    assert(digits@ =~= decimal_digits(group as nat));
    let mut out: Vec<u8> = Vec::new();
    out.push(0x6F);
    out.push(0x75);
    out.push(0x74);
    let ghost head = out@;
    let mut k: usize = digits.len();
    while k < 3
        invariant
            digits@.len() <= k <= 3 || (digits@.len() > 3 && k == digits@.len()),
            out@ == head + Seq::new((k - digits@.len()) as nat, |i: int| 0x30u8),
        decreases 3 - k,
    {
        out.push(0x30);
        k = k + 1;
        assert(out@ =~= head + Seq::new((k - digits@.len()) as nat, |i: int| 0x30u8));
    }
    let ghost padded = out@;
    let mut j: usize = 0;
    while j < digits.len()
        invariant
            j <= digits@.len(),
            out@ == padded + digits@.take(j as int),
        decreases digits@.len() - j,
    {
        out.push(digits[j]);
        j = j + 1;
        assert(out@ =~= padded + digits@.take(j as int));
    }
    out.push(0x2E);
    out.push(0x6D);
    out.push(0x70);
    out.push(0x34);
    proof {
        let d = decimal_digits(group as nat);
        assert(digits@.take(j as int) =~= d);
        if d.len() >= 3 {
            assert(Seq::new((k - d.len()) as nat, |i: int| 0x30u8) =~= Seq::<u8>::empty());
        }
        assert(out@ =~= spec_chunk_file_name(group));
    }
    out
}

/// The decimal digits of `n` spell `n`: each is an ASCII digit, there is at least one,
/// the first is `0` only for `n` itself zero, and their decimal value is `n`.
pub proof fn lemma_decimal_digits_spell(n: nat)
    ensures
        decimal_digits(n).len() >= 1,
        forall|i: int| 0 <= i < decimal_digits(n).len() ==> is_digit(#[trigger] decimal_digits(n)[i]),
        decimal_value(decimal_digits(n)) == n,
        n >= 10 ==> decimal_digits(n)[0] != 0x30,
    decreases n,
{
    if n >= 10 {
        lemma_decimal_digits_spell(n / 10);
        let d = decimal_digits(n / 10);
        lemma_decimal_value_push(d, (0x30 + n % 10) as u8);
        assert(((0x30 + n % 10) as u8 - 0x30) as nat == n % 10);
        assert((n / 10) * 10 + n % 10 == n) by (nonlinear_arith);
        assert(n / 10 >= 1);
    } else {
        lemma_decimal_value_push(Seq::<u8>::empty(), (0x30 + n) as u8);
        assert(Seq::<u8>::empty().push((0x30 + n) as u8) =~= decimal_digits(n));
    }
}

/// Zeros in front of a string of digits do not change its value.
proof fn lemma_decimal_value_zeros(z: nat, d: Seq<u8>)
    ensures
        decimal_value(Seq::new(z, |i: int| 0x30u8) + d) == decimal_value(d),
    decreases d.len(), z,
{
    let zs = Seq::new(z, |i: int| 0x30u8);
    if d.len() == 0 {
        assert(zs + d =~= zs);
        if z > 0 {
            assert(zs.drop_last() =~= Seq::new((z - 1) as nat, |i: int| 0x30u8));
            lemma_decimal_value_zeros((z - 1) as nat, d);
            assert(Seq::new((z - 1) as nat, |i: int| 0x30u8) + d =~= zs.drop_last());
        }
    } else {
        assert((zs + d).drop_last() =~= zs + d.drop_last());
        lemma_decimal_value_zeros(z, d.drop_last());
    }
}

/// The chunk file name of group `g` is `out`, then the decimal digits of `g` padded
/// with `0` to at least three, then `.mp4`: the middle part consists of ASCII digits
/// whose value is `g`, and it starts with `0` only where the padding put it.
pub proof fn lemma_chunk_file_name_spells_group(g: u64)
    ensures
        ({
            let name = spec_chunk_file_name(g);
            let mid = name.subrange(3, name.len() - 4);
            &&& name.len() >= 10
            &&& name.take(3) == seq![0x6Fu8, 0x75, 0x74]
            &&& name.skip(name.len() - 4) == seq![0x2Eu8, 0x6D, 0x70, 0x34]
            &&& mid.len() >= 3
            &&& forall|i: int| 0 <= i < mid.len() ==> is_digit(#[trigger] mid[i])
            &&& decimal_value(mid) == g
            &&& mid.len() > 3 ==> mid[0] != 0x30
        }),
{
    let d = decimal_digits(g as nat);
    lemma_decimal_digits_spell(g as nat);
    let p = zero_pad(d, 3);
    let name = spec_chunk_file_name(g);
    assert(name.subrange(3, name.len() - 4) =~= p);
    assert(name.take(3) =~= seq![0x6Fu8, 0x75, 0x74]);
    assert(name.skip(name.len() - 4) =~= seq![0x2Eu8, 0x6D, 0x70, 0x34]);
    if d.len() < 3 {
        let z = (3 - d.len()) as nat;
        lemma_decimal_value_zeros(z, d);
        assert forall|i: int| 0 <= i < p.len() implies is_digit(#[trigger] p[i]) by {
            if i >= z {
                assert(p[i] == d[i - z]);
            }
        }
    } else {
        if d.len() > 3 {
            assert(g >= 10) by {
                if g < 10 {
                    assert(d.len() == 1);
                }
            }
        }
    }
}

/// Reading a number back from its decimal digits, with or without a leading `+`, gives
/// the number when it fits in a `u8`, and nothing when it does not.
pub proof fn lemma_parse_u8_reads_decimal(n: nat)
    ensures
        spec_parse_u8(decimal_digits(n)) == (if n <= 255 {
            Some(n as u8)
        } else {
            None::<u8>
        }),
        spec_parse_u8(seq![0x2Bu8] + decimal_digits(n)) == spec_parse_u8(decimal_digits(n)),
{
    let d = decimal_digits(n);
    lemma_decimal_digits_spell(n);
    assert(is_digit(d[0]));
    assert(without_plus(d) == d);
    assert((seq![0x2Bu8] + d).drop_first() =~= d);
    assert(without_plus(seq![0x2Bu8] + d) == d);
    assert(!has_non_digit(d));
}

} // verus!
