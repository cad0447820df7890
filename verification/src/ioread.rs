//! Trusted interface to the reading side of `std::io`.
//!
//! The scanners own an arbitrary byte source and pull chunks from it through
//! the one wrapper below; nothing can be promised about which bytes arrive,
//! so every caller is verified for every possible outcome of a read.

use vstd::prelude::*;
use crate::bytesbuf::bytes_mut_view;

verus! {

#[verifier::external_type_specification]
#[verifier::external_body]
pub struct ExIoError(std::io::Error);

/// Relies on `std::io::Read::read`: reads into the tail of the buffer that
/// starts at `pos` and says how many bytes it placed there; `Ok(0)` with a
/// non-empty tail means the source is exhausted.  The read sees only the
/// tail, so the bytes before `pos` and the buffer's length are untouched,
/// and the count never exceeds the tail's length.
#[verifier::external_body]
pub(crate) fn read_into_tail<R: std::io::Read>(
    reader: &mut R,
    buf: &mut bytes::BytesMut,
    pos: usize,
) -> (r: Result<usize, std::io::Error>)
    requires
        pos <= bytes_mut_view(*old(buf)).len(),
    ensures
        bytes_mut_view(*final(buf)).len() == bytes_mut_view(*old(buf)).len(),
        forall|i: int|
            0 <= i < pos ==> bytes_mut_view(*final(buf))[i] == bytes_mut_view(*old(buf))[i],
        r matches Ok(n) ==> pos + n <= bytes_mut_view(*old(buf)).len(),
{
    reader.read(&mut buf[pos..])
}

} // verus!
