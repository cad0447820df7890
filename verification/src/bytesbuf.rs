//! Trusted interface to the `bytes` crate.
//!
//! The scanners keep their unconsumed bytes in a `bytes::BytesMut` and hand
//! out frozen `bytes::Bytes` slices that alias the same memory, so an emitted
//! line never copies its bytes.  Each wrapper below relies on exactly one
//! function of `bytes`, with the behaviour its documentation states.

use vstd::prelude::*;

verus! {

#[verifier::external_type_specification]
#[verifier::external_body]
pub struct ExBytesMut(bytes::BytesMut);

#[verifier::external_type_specification]
#[verifier::external_body]
pub struct ExBytes(bytes::Bytes);

/// The bytes a `bytes::BytesMut` buffer currently holds.
pub uninterp spec fn bytes_mut_view(b: bytes::BytesMut) -> Seq<u8>;

/// The bytes a frozen `bytes::Bytes` slice holds.
pub uninterp spec fn bytes_view(b: bytes::Bytes) -> Seq<u8>;

/// Relies on `BytesMut::with_capacity`: the new buffer contains no data.
#[verifier::external_body]
pub(crate) fn bm_with_capacity(capacity: usize) -> (r: bytes::BytesMut)
    ensures
        bytes_mut_view(r) == Seq::<u8>::empty(),
{
    bytes::BytesMut::with_capacity(capacity)
}

/// Relies on `BytesMut::len`: the number of bytes the buffer holds.
#[verifier::external_body]
pub(crate) fn bm_len(b: &bytes::BytesMut) -> (r: usize)
    ensures
        r == bytes_mut_view(*b).len(),
{
    b.len()
}

/// Relies on the `Deref`-based index of `BytesMut`: the byte at position `i`.
#[verifier::external_body]
pub(crate) fn bm_byte_at(b: &bytes::BytesMut, i: usize) -> (r: u8)
    requires
        i < bytes_mut_view(*b).len(),
    ensures
        r == bytes_mut_view(*b)[i as int],
{
    b[i]
}

/// Relies on `AsRef` for `BytesMut`: a borrowed view of the held bytes.
#[verifier::external_body]
pub(crate) fn bm_as_slice(b: &bytes::BytesMut) -> (r: &[u8])
    ensures
        r@ == bytes_mut_view(*b),
{
    b.as_ref()
}

/// Relies on `BytesMut::resize`: extends the buffer with `value` bytes, or
/// truncates it, so that it holds exactly `new_len` bytes.  The bound on
/// `new_len` keeps `resize` from its documented capacity-overflow panic.
#[verifier::external_body]
pub(crate) fn bm_resize(b: &mut bytes::BytesMut, new_len: usize, value: u8)
    requires
        new_len <= usize::MAX / 2,
    ensures
        bytes_mut_view(*final(b)).len() == new_len,
        forall|i: int|
            0 <= i < new_len ==> bytes_mut_view(*final(b))[i] == (if i < bytes_mut_view(
                *old(b),
            ).len() {
                bytes_mut_view(*old(b))[i]
            } else {
                value
            }),
{
    b.resize(new_len, value)
}

/// Relies on `BytesMut::truncate`: keeps the first `len` bytes and drops the
/// rest; a `len` beyond the current length changes nothing.
#[verifier::external_body]
pub(crate) fn bm_truncate(b: &mut bytes::BytesMut, len: usize)
    ensures
        bytes_mut_view(*final(b)) == (if len <= bytes_mut_view(*old(b)).len() {
            bytes_mut_view(*old(b)).take(len as int)
        } else {
            bytes_mut_view(*old(b))
        }),
{
    b.truncate(len)
}

/// Relies on `BytesMut::split_to`: carves off and returns the first `at`
/// bytes, leaving the rest, without copying either part.
#[verifier::external_body]
pub(crate) fn bm_split_to(b: &mut bytes::BytesMut, at: usize) -> (r: bytes::BytesMut)
    requires
        at <= bytes_mut_view(*old(b)).len(),
    ensures
        bytes_mut_view(r) == bytes_mut_view(*old(b)).take(at as int),
        bytes_mut_view(*final(b)) == bytes_mut_view(*old(b)).skip(at as int),
{
    b.split_to(at)
}

/// Relies on `BytesMut::freeze`: converts the buffer into an immutable
/// `Bytes` slice holding the same bytes.
#[verifier::external_body]
pub(crate) fn bm_freeze(b: bytes::BytesMut) -> (r: bytes::Bytes)
    ensures
        bytes_view(r) == bytes_mut_view(b),
{
    b.freeze()
}

/// Relies on `Buf::advance` for `BytesMut`: discards the first `cnt` bytes.
#[verifier::external_body]
pub(crate) fn bm_advance(b: &mut bytes::BytesMut, cnt: usize)
    requires
        cnt <= bytes_mut_view(*old(b)).len(),
    ensures
        bytes_mut_view(*final(b)) == bytes_mut_view(*old(b)).skip(cnt as int),
{
    bytes::Buf::advance(b, cnt)
}

} // verus!
