//! Where bytes are read from.
//!
//! The scanners and readers of this crate are written against these traits, so
//! that they run alike over memory, over a shadow file system and over real
//! files. This module has the in-memory sources.

use vstd::prelude::*;

verus! {

/// The first `n` bytes of `s`, or all of them.
pub open spec fn at_most(s: Seq<u8>, n: int) -> Seq<u8> {
    if n <= s.len() {
        s.take(n)
    } else {
        s
    }
}

/// `s` without its first `n` bytes.
pub open spec fn beyond(s: Seq<u8>, n: int) -> Seq<u8> {
    if n <= s.len() {
        s.skip(n)
    } else {
        Seq::empty()
    }
}

/// A stream of bytes.
///
/// What the stream holds is for proofs. An implementation that nothing is proved
/// of need not say.
pub trait Source: Sized {
    /// What a read can fail with.
    type Error;

    /// All bytes of the stream.
    open spec fn whole(&self) -> Seq<u8> {
        Seq::empty()
    }

    /// The bytes that have not been read yet.
    open spec fn rest(&self) -> Seq<u8> {
        Seq::empty()
    }

    /// Reads never fail.
    open spec fn steady(&self) -> bool {
        false
    }

    /// Reads `want` bytes, fewer only if the stream ends before that.
    fn read(&mut self, want: usize) -> (r: Result<Vec<u8>, Self::Error>)
        ensures
            r is Ok ==> r->Ok_0@ == at_most(old(self).rest(), want as int),
            r is Ok ==> final(self).rest() == beyond(old(self).rest(), want as int),
            final(self).whole() == old(self).whole(),
            final(self).steady() == old(self).steady(),
            old(self).steady() ==> r is Ok,
    ;
}

/// A stream of bytes that can be read again from any offset.
pub trait SeekSource: Source {
    /// Goes on reading at `offset`.
    fn seek(&mut self, offset: u64) -> (r: Result<(), Self::Error>)
        ensures
            r is Ok ==> final(self).rest() == beyond(old(self).whole(), offset as int),
            final(self).whole() == old(self).whole(),
            final(self).steady() == old(self).steady(),
            old(self).steady() ==> r is Ok,
    ;
}

/// The error of a source that has none.
#[derive(Clone, Copy, Debug, PartialEq, Eq)]
pub struct NoError;

/// Bytes in memory, read from start to end.
pub struct SliceSource<'a> {
    buf: &'a [u8],
    pos: usize,
}

impl<'a> SliceSource<'a> {
    #[verifier::type_invariant]
    closed spec fn wf(self) -> bool {
        self.pos <= self.buf@.len()
    }

    /// A source at the start of `buf`.
    pub fn new(buf: &'a [u8]) -> (r: SliceSource<'a>)
        ensures
            r.rest() == buf@,
            r.whole() == buf@,
            r.steady(),
    {
        let r = SliceSource { buf, pos: 0 };
        assert(r.rest() =~= buf@);
        r
    }
}

impl<'a> Source for SliceSource<'a> {
    type Error = NoError;

    closed spec fn whole(&self) -> Seq<u8> {
        self.buf@
    }

    closed spec fn rest(&self) -> Seq<u8> {
        self.buf@.skip(self.pos as int)
    }

    open spec fn steady(&self) -> bool {
        true
    }

    fn read(&mut self, want: usize) -> (r: Result<Vec<u8>, NoError>) {
        proof {
            use_type_invariant(&*self);
        }
        let left: usize = self.buf.len() - self.pos;
        let n: usize = if want < left {
            want
        } else {
            left
        };
        let start: usize = self.pos;
        let part = vstd::slice::slice_subrange(self.buf, start, start + n);
        self.pos = start + n;
        assert(part@ =~= at_most(old(self).rest(), want as int));
        assert(self.rest() =~= beyond(old(self).rest(), want as int));
        Ok(vstd::slice::slice_to_vec(part))
    }
}

impl<'a> SeekSource for SliceSource<'a> {
    fn seek(&mut self, offset: u64) -> (r: Result<(), NoError>) {
        let len: usize = self.buf.len();
        if offset <= len as u64 {
            self.pos = offset as usize;
        } else {
            self.pos = len;
        }
        assert(self.rest() =~= beyond(old(self).whole(), offset as int));
        Ok(())
    }
}

} // verus!
