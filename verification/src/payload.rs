//! Reproducible test payloads from a fixed-seed xorshift generator.
use vstd::prelude::*;

verus! {

/// The generator's starting state.
pub open spec fn payload_seed() -> u64 {
    0x123456789abcdef0
}

/// One xorshift step: shift-xor by 13 to the left, 7 to the right, 17 to the left.
pub open spec fn xorshift_step(x: u64) -> u64 {
    let a = x ^ (x << 13u64);
    let b = a ^ (a >> 7u64);
    b ^ (b << 17u64)
}

/// The generator's state after `i` steps.
pub open spec fn payload_state(i: nat) -> u64
    decreases i,
{
    if i == 0 {
        payload_seed()
    } else {
        xorshift_step(payload_state((i - 1) as nat))
    }
}

/// Byte `i` of every payload: the low byte of the state after `i + 1` steps.
pub open spec fn payload_byte(i: nat) -> u8 {
    (payload_state(i + 1) & 0xFF) as u8
}

/// The payload of `size` bytes.
pub open spec fn spec_payload_bytes(size: nat) -> Seq<u8> {
    Seq::new(size, |i: int| payload_byte(i as nat))
}

/// A payload of `size` bytes; every call with the same size gives the same bytes.
pub fn generate_payload(size: usize) -> (r: Vec<u8>)
    ensures
        r@ == spec_payload_bytes(size as nat),
        r@.len() == size,
        forall|i: int| 0 <= i < size ==> r@[i] == (payload_state((i + 1) as nat) & 0xFF) as u8,
{
    let mut seed: u64 = 0x123456789abcdef0;
    let mut out: Vec<u8> = Vec::new();
    let mut i: usize = 0;
    while i < size
        invariant
            i <= size,
            seed == payload_state(i as nat),
            out@ == spec_payload_bytes(i as nat),
        decreases size - i,
    {
        seed = seed ^ (seed << 13u64);
        seed = seed ^ (seed >> 7u64);
        seed = seed ^ (seed << 17u64);
        assert(seed == payload_state((i + 1) as nat));
        out.push((seed & 0xFF) as u8);
        i = i + 1;
        assert(out@ =~= spec_payload_bytes(i as nat));
    }
    out
}

/// A shorter payload is a prefix of a longer one.
pub proof fn lemma_payload_prefix(m: nat, n: nat)
    requires
        m <= n,
    ensures
        spec_payload_bytes(n).take(m as int) == spec_payload_bytes(m),
{
    assert(spec_payload_bytes(n).take(m as int) =~= spec_payload_bytes(m));
}

/// A payload is one xorshift stream from the fixed seed, never reseeded: for any run of
/// states `x` that starts at 0x123456789abcdef0 and goes from each state to the next by
/// shift-xor 13 left, 7 right, 17 left, byte `i` of an `n`-byte payload is the low byte
/// of `x[i + 1]`, for every `i < n`.
pub proof fn lemma_payload_stream(n: nat, x: Seq<u64>)
    requires
        x.len() == n + 1,
        x[0] == 0x123456789abcdef0u64,
        forall|k: int|
            1 <= k <= n ==> #[trigger] x[k] == ({
                let a = x[k - 1] ^ (x[k - 1] << 13u64);
                let b = a ^ (a >> 7u64);
                b ^ (b << 17u64)
            }),
    ensures
        spec_payload_bytes(n).len() == n,
        forall|i: int| 0 <= i < n ==> spec_payload_bytes(n)[i] == (x[i + 1] & 0xFF) as u8,
{
    assert forall|k: int| 0 <= k <= n implies #[trigger] x[k] == payload_state(k as nat) by {
        lemma_payload_states(n, x, k);
    }
    assert forall|i: int| 0 <= i < n implies spec_payload_bytes(n)[i] == (x[i + 1] & 0xFF) as u8 by {
        assert(x[i + 1] == payload_state((i + 1) as nat));
    }
}

proof fn lemma_payload_states(n: nat, x: Seq<u64>, k: int)
    requires
        x.len() == n + 1,
        x[0] == 0x123456789abcdef0u64,
        forall|k: int|
            1 <= k <= n ==> #[trigger] x[k] == ({
                let a = x[k - 1] ^ (x[k - 1] << 13u64);
                let b = a ^ (a >> 7u64);
                b ^ (b << 17u64)
            }),
        0 <= k <= n,
    ensures
        x[k] == payload_state(k as nat),
    decreases k,
{
    if k > 0 {
        lemma_payload_states(n, x, k - 1);
        assert(x[k] == xorshift_step(x[k - 1]));
    }
}

} // verus!
