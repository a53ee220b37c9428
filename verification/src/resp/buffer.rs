//! The growable byte buffer that frames are decoded from.  The buffer type
//! itself comes from the `bytes` crate; its contents are named by
//! `bytes_view`, and the two operations the decoder needs are wrapped with
//! contracts over that name.

use vstd::prelude::*;

use bytes::BytesMut;

verus! {

#[verifier::external_type_specification]
#[verifier::external_body]
pub struct ExBytesMut(BytesMut);

/// The bytes currently held by the buffer, front first.
pub uninterp spec fn bytes_view(b: BytesMut) -> Seq<u8>;

/// Relies on bytes::BytesMut's deref to a byte slice: the slice is exactly
/// the buffer's current contents.
#[verifier::external_body]
pub(crate) fn bytes_slice(b: &BytesMut) -> (r: &[u8])
    ensures
        r@ == bytes_view(*b),
{
    &b[..]
}

/// Relies on bytes::Buf::advance for BytesMut: it discards exactly the first
/// `n` bytes and keeps the rest.  `advance` panics when `n` exceeds the
/// remaining length, so that case is excluded here.
#[verifier::external_body]
pub(crate) fn bytes_advance(b: &mut BytesMut, n: usize)
    requires
        n <= bytes_view(*old(b)).len(),
    ensures
        bytes_view(*final(b)) == bytes_view(*old(b)).skip(n as int),
{
    bytes::Buf::advance(b, n);
}

} // verus!
