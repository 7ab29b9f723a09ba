//! The byte buffers that objects and literal data are held in.

use bytes::Bytes;
use vstd::prelude::*;

verus! {

/// `bytes::Bytes`, a shared buffer of bytes, taken as an opaque type.
#[verifier::external_type_specification]
#[verifier::external_body]
pub struct ExBytes(bytes::Bytes);

/// The bytes that a buffer holds, in order.
pub uninterp spec fn bytes_view(buffer: Bytes) -> Seq<u8>;

/// `Bytes::len`: the number of bytes that the buffer holds.
pub assume_specification[ Bytes::len ](buffer: &Bytes) -> (n: usize)
    ensures
        n == bytes_view(*buffer).len(),
;

/// `Clone::clone` of `Bytes`: another handle on the same bytes.
pub assume_specification[ <Bytes as Clone>::clone ](buffer: &Bytes) -> (copy: Bytes)
    ensures
        bytes_view(copy) == bytes_view(*buffer),
;

/// `Bytes::slice` on `begin..end`: a buffer that holds the bytes of `buffer`
/// from `begin` up to, not including, `end`. The call panics on a range that
/// is reversed or reaches past the end, so such a range is excluded.
#[verifier::external_body]
pub(crate) fn slice_of(buffer: &Bytes, begin: usize, end: usize) -> (part: Bytes)
    requires
        begin <= end <= bytes_view(*buffer).len(),
    ensures
        bytes_view(part) == bytes_view(*buffer).subrange(begin as int, end as int),
{
    buffer.slice(begin..end)
}

/// `AsRef<[u8]>::as_ref` of `Bytes`: the held bytes as a slice.
#[verifier::external_body]
pub(crate) fn as_slice(buffer: &Bytes) -> (bytes: &[u8])
    ensures
        bytes@ == bytes_view(*buffer),
{
    buffer.as_ref()
}

} // verus!
