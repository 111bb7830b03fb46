//! Contracts for the `bytes::BytesMut` growable buffer used by the streaming
//! decoder and the pre-app input queue.

use bytes::BytesMut;
use vstd::prelude::*;

verus! {

/// Makes `bytes::BytesMut` usable in verified signatures and fields; its
/// contents are reached only through [`buf_contents`].
#[verifier::external_type_specification]
#[verifier::external_body]
pub struct ExBytesMut(BytesMut);

/// The bytes a `BytesMut` currently holds, front to back.
pub uninterp spec fn buf_contents(b: BytesMut) -> Seq<u8>;

/// `BytesMut::new`: the buffer it returns holds no bytes.
#[verifier::external_body]
pub(crate) fn buf_new() -> (b: BytesMut)
    ensures
        buf_contents(b) == Seq::<u8>::empty(),
{
    BytesMut::new()
}

/// `BytesMut::len`: the number of bytes held.
#[verifier::external_body]
pub(crate) fn buf_len(b: &BytesMut) -> (n: usize)
    ensures
        n == buf_contents(*b).len(),
{
    b.len()
}

/// Indexing a `BytesMut` (through its `Deref` to `[u8]`): the byte at `i`.
#[verifier::external_body]
pub(crate) fn buf_byte(b: &BytesMut, i: usize) -> (v: u8)
    requires
        i < buf_contents(*b).len(),
    ensures
        v == buf_contents(*b)[i as int],
{
    b[i]
}

/// `BytesMut::extend_from_slice`: appends `data` after the bytes already held.
/// The buffer grows its allocation as needed, which fails past `isize::MAX`
/// bytes; such inputs are excluded.
#[verifier::external_body]
pub(crate) fn buf_extend(b: &mut BytesMut, data: &[u8])
    requires
        buf_contents(*old(b)).len() + data@.len() <= isize::MAX,
    ensures
        buf_contents(*final(b)) == buf_contents(*old(b)) + data@,
{
    b.extend_from_slice(data)
}

/// `BytesMut::split_to(at)`: the first `at` bytes leave the buffer and are
/// handed back (copied out into a `Vec`); the buffer keeps the rest. The crate
/// panics when `at` exceeds the length, which the precondition excludes.
#[verifier::external_body]
pub(crate) fn buf_split_to(b: &mut BytesMut, at: usize) -> (head: Vec<u8>)
    requires
        at <= buf_contents(*old(b)).len(),
    ensures
        head@ == buf_contents(*old(b)).take(at as int),
        buf_contents(*final(b)) == buf_contents(*old(b)).skip(at as int),
{
    b.split_to(at).to_vec()
}

} // verus!
