//! The `bytes::Bytes` operations that the cache uses.

use bytes::Bytes;
use vstd::prelude::*;

verus! {

/// A reference-counted contiguous byte buffer.
#[verifier::external_type_specification]
#[verifier::external_body]
pub struct ExBytes(Bytes);

/// The bytes that a buffer exposes, in order.
pub uninterp spec fn contents(bytes: Bytes) -> Seq<u8>;

/// `Bytes::len` is the number of bytes the buffer exposes.
#[verifier::external_body]
pub(crate) fn length(bytes: &Bytes) -> (len: usize)
    ensures
        len == contents(*bytes).len(),
{
    bytes.len()
}

/// `Bytes::clone` exposes the same bytes.
pub assume_specification[ <Bytes as Clone>::clone ](buffer: &Bytes) -> (shared: Bytes)
    ensures
        contents(shared) == contents(*buffer),
;

/// `Bytes::slice` exposes the bytes from `start` up to `end`; it panics unless
/// `start <= end` and `end` is within the buffer.
#[verifier::external_body]
pub(crate) fn slice(bytes: &Bytes, start: usize, end: usize) -> (part: Bytes)
    requires
        start <= end <= contents(*bytes).len(),
    ensures
        contents(part) == contents(*bytes).subrange(start as int, end as int),
{
    bytes.slice(start..end)
}

/// `Bytes::deref` borrows the exposed bytes.
#[verifier::external_body]
pub(crate) fn as_slice(bytes: &Bytes) -> (slice: &[u8])
    ensures
        slice@ == contents(*bytes),
{
    bytes
}

/// `Bytes::copy_from_slice` exposes a copy of the given bytes.
#[verifier::external_body]
pub(crate) fn copy_from_slice(data: &[u8]) -> (copy: Bytes)
    ensures
        contents(copy) == data@,
{
    Bytes::copy_from_slice(data)
}

} // verus!
