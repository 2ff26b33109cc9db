//! The growable byte buffer of the `bytes` crate, as this library sees it:
//! the sequence of bytes not yet read.

use vstd::prelude::*;
use bytes::{Buf, BytesMut};

verus! {

#[verifier::external_type_specification]
#[verifier::external_body]
pub struct ExBytesMut(BytesMut);

/// The unread bytes of a buffer, in order.
pub uninterp spec fn contents(buf: BytesMut) -> Seq<u8>;

/// `BytesMut::as_ref`: the unread bytes as a slice.
#[verifier::external_body]
pub(crate) fn buffer_bytes(buf: &BytesMut) -> (bytes: &[u8])
    ensures
        bytes@ == contents(*buf),
{
    buf.as_ref()
}

/// `Buf::advance` on a `BytesMut`: drops the first `cnt` unread bytes. The
/// method panics when fewer are left, which the precondition excludes.
#[verifier::external_body]
pub(crate) fn buffer_advance(buf: &mut BytesMut, cnt: usize)
    requires
        cnt <= contents(*old(buf)).len(),
    ensures
        contents(*final(buf)) == contents(*old(buf)).skip(cnt as int),
{
    buf.advance(cnt)
}

/// `BytesMut::extend_from_slice`: appends the bytes of `extra`.
#[verifier::external_body]
pub(crate) fn buffer_extend(buf: &mut BytesMut, extra: &[u8])
    ensures
        contents(*final(buf)) == contents(*old(buf)) + extra@,
{
    buf.extend_from_slice(extra)
}

} // verus!
