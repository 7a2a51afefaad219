//! The byte buffers frames are read from and written to: `bytes::BytesMut`.
use vstd::prelude::*;

use bytes::{Buf, BytesMut};

verus! {

/// `bytes::BytesMut`, a growable byte buffer.
#[verifier::external_type_specification]
#[verifier::external_body]
pub struct ExBytesMut(BytesMut);

/// The bytes a buffer holds, front first.
pub uninterp spec fn buffer_bytes(b: BytesMut) -> Seq<u8>;

/// `<BytesMut as AsRef<[u8]>>::as_ref`: the buffer's bytes as a slice, without copying.
#[verifier::external_body]
pub(crate) fn buffer_slice(b: &BytesMut) -> (s: &[u8])
    ensures
        s@ == buffer_bytes(*b),
{
    b.as_ref()
}

/// `<BytesMut as Buf>::advance`: drops the first `n` bytes. It panics when
/// `n` exceeds the length, which `requires` rules out.
#[verifier::external_body]
pub(crate) fn buffer_advance(b: &mut BytesMut, n: usize)
    requires
        n <= buffer_bytes(*old(b)).len(),
    ensures
        buffer_bytes(*final(b)) == buffer_bytes(*old(b)).subrange(n as int, buffer_bytes(*old(b)).len() as int),
{
    b.advance(n)
}

/// `BytesMut::reserve`: makes room for `additional` more bytes and keeps the
/// bytes held. It panics when the capacity it needs does not fit in an
/// allocation, which `requires` rules out for the length asked for; the
/// capacity a buffer already has is not part of its view, so the panic of a
/// buffer whose capacity already exceeds half the largest allocation is left
/// unsaid.
#[verifier::external_body]
pub(crate) fn buffer_reserve(b: &mut BytesMut, additional: usize)
    requires
        buffer_bytes(*old(b)).len() + additional <= isize::MAX,
    ensures
        buffer_bytes(*final(b)) == buffer_bytes(*old(b)),
{
    b.reserve(additional)
}

/// `BytesMut::extend_from_slice`: appends the bytes of `s`. It grows the
/// buffer as `reserve` does, with the same panics and the same limit.
#[verifier::external_body]
pub(crate) fn buffer_extend(b: &mut BytesMut, s: &[u8])
    requires
        buffer_bytes(*old(b)).len() + s@.len() <= isize::MAX,
    ensures
        buffer_bytes(*final(b)) == buffer_bytes(*old(b)) + s@,
{
    b.extend_from_slice(s)
}

} // verus!
