//! The byte buffers of the `bytes` crate, as the encoder and decoder use them. Each
//! function below makes one call into `bytes`; its contract is trusted, not proved.
use bytes::{Buf, BufMut, Bytes, BytesMut};
use vstd::prelude::*;

verus! {

#[verifier::external_type_specification]
#[verifier::external_body]
pub struct ExBytes(Bytes);

#[verifier::external_type_specification]
#[verifier::external_body]
pub struct ExBytesMut(BytesMut);

/// The bytes a `Bytes` still holds, front to back.
pub uninterp spec fn bytes_view(b: Bytes) -> Seq<u8>;

/// The bytes a `BytesMut` holds, front to back.
pub uninterp spec fn bytes_mut_view(b: BytesMut) -> Seq<u8>;

/// `BytesMut::new`: an empty buffer.
#[verifier::external_body]
pub(crate) fn bytes_mut_new() -> (r: BytesMut)
    ensures
        bytes_mut_view(r) == Seq::<u8>::empty(),
{
    BytesMut::new()
}

/// An empty buffer to encode into.
pub fn new_buffer() -> (r: BytesMut)
    ensures
        bytes_mut_view(r) == Seq::<u8>::empty(),
{
    bytes_mut_new()
}

/// `BytesMut::extend_from_slice`: appends the slice. The buffer grows as needed; the
/// `requires` keeps the new length far from the point where growing would panic.
#[verifier::external_body]
pub(crate) fn bytes_mut_extend(b: &mut BytesMut, data: &[u8])
    requires
        bytes_mut_view(*old(b)).len() + data@.len() <= isize::MAX,
    ensures
        bytes_mut_view(*final(b)) == bytes_mut_view(*old(b)) + data@,
{
    b.extend_from_slice(data)
}

/// `BufMut::put_u8` on a `BytesMut`: appends one byte.
#[verifier::external_body]
pub(crate) fn bytes_mut_put_u8(b: &mut BytesMut, n: u8)
    requires
        bytes_mut_view(*old(b)).len() + 1 <= isize::MAX,
    ensures
        bytes_mut_view(*final(b)) == bytes_mut_view(*old(b)).push(n),
{
    b.put_u8(n)
}

/// `BufMut::put_u16` on a `BytesMut`: appends the value in big-endian order.
#[verifier::external_body]
pub(crate) fn bytes_mut_put_u16(b: &mut BytesMut, n: u16)
    requires
        bytes_mut_view(*old(b)).len() + 2 <= isize::MAX,
    ensures
        bytes_mut_view(*final(b)) == bytes_mut_view(*old(b)) + seq![(n / 256) as u8, (n % 256) as u8],
{
    b.put_u16(n)
}

/// `BytesMut::freeze`: the same bytes as an immutable `Bytes`.
#[verifier::external_body]
pub(crate) fn bytes_mut_freeze(b: BytesMut) -> (r: Bytes)
    ensures
        bytes_view(r) == bytes_mut_view(b),
{
    b.freeze()
}

/// `Buf::remaining` on a `Bytes`: the number of bytes left.
#[verifier::external_body]
pub(crate) fn bytes_remaining(b: &Bytes) -> (r: usize)
    ensures
        r as int == bytes_view(*b).len(),
{
    b.remaining()
}

/// `Buf::get_u8` on a `Bytes`: takes the first byte off the front (it panics on an
/// empty buffer, which the `requires` rules out).
#[verifier::external_body]
pub(crate) fn bytes_get_u8(b: &mut Bytes) -> (r: u8)
    requires
        bytes_view(*old(b)).len() > 0,
    ensures
        r == bytes_view(*old(b))[0],
        bytes_view(*final(b)) == bytes_view(*old(b)).drop_first(),
{
    b.get_u8()
}

/// `Buf::copy_to_bytes` on a `Bytes`: takes the first `n` bytes off the front (it
/// panics when fewer are left, which the `requires` rules out).
#[verifier::external_body]
pub(crate) fn bytes_split_front(b: &mut Bytes, n: usize) -> (r: Bytes)
    requires
        n <= bytes_view(*old(b)).len(),
    ensures
        bytes_view(r) == bytes_view(*old(b)).take(n as int),
        bytes_view(*final(b)) == bytes_view(*old(b)).skip(n as int),
{
    b.copy_to_bytes(n)
}

/// `Buf::copy_to_bytes` on a `Bytes` (which splits off the first `n` bytes and panics
/// when fewer are left), with the taken bytes handed out as a `Vec`.
#[verifier::external_body]
pub(crate) fn bytes_split_front_to_vec(b: &mut Bytes, n: usize) -> (r: Vec<u8>)
    requires
        n <= bytes_view(*old(b)).len(),
    ensures
        r@ == bytes_view(*old(b)).take(n as int),
        bytes_view(*final(b)) == bytes_view(*old(b)).skip(n as int),
{
    b.copy_to_bytes(n).to_vec()
}

} // verus!
