//! Bytes read from the terminal before the application starts (during the
//! capability probe), replayed before fresh input.

use bytes::BytesMut;
use vstd::prelude::*;

use crate::bytebuf::{buf_contents, buf_extend, buf_len, buf_new, buf_split_to};

verus! {

/// Queued input bytes, oldest first.
pub struct InputQueue {
    buf: BytesMut,
}

impl InputQueue {
    /// The queued bytes.
    pub closed spec fn queued(&self) -> Seq<u8> {
        buf_contents(self.buf)
    }

    pub fn new() -> (q: Self)
        ensures
            q.queued() == Seq::<u8>::empty(),
    {
        InputQueue { buf: buf_new() }
    }

    /// Queue `bytes` after those already queued.
    pub fn push(&mut self, bytes: &[u8])
        requires
            old(self).queued().len() + bytes@.len() <= isize::MAX,
        ensures
            final(self).queued() == old(self).queued() + bytes@,
    {
        buf_extend(&mut self.buf, bytes);
    }

    /// Whether nothing is queued.
    pub fn is_empty(&self) -> (r: bool)
        ensures
            r == (self.queued().len() == 0),
    {
        buf_len(&self.buf) == 0
    }

    /// Take every queued byte, in order, leaving the queue empty.
    pub fn drain(&mut self) -> (out: Vec<u8>)
        ensures
            out@ == old(self).queued(),
            final(self).queued() == Seq::<u8>::empty(),
    {
        let n = buf_len(&self.buf);
        let out = buf_split_to(&mut self.buf, n);
        assert(buf_contents(self.buf) =~= Seq::<u8>::empty());
        assert(out@ =~= old(self).queued());
        out
    }
}

impl Default for InputQueue {
    fn default() -> (q: Self)
        ensures
            q.queued() == Seq::<u8>::empty(),
    {
        InputQueue::new()
    }
}

} // verus!
