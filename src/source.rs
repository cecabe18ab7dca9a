//! The byte source that a cursor reads from.
use vstd::prelude::*;
use vstd::slice::slice_subrange;
use crate::rows::row_end;

verus! {

/// A buffered, seekable byte stream, as a cursor needs it.
///
/// A source is modelled by the bytes of the whole stream (`content`) and by
/// the offset of its next byte (`offset`). None of its operations changes the
/// content, and an operation that fails leaves the offset where it was. A
/// source for which `never_fails` holds answers every call with `Ok`.
pub trait RowSource: Sized {
    type Error;

    spec fn content(&self) -> Seq<u8>;

    spec fn offset(&self) -> nat;

    spec fn never_fails(&self) -> bool;

    /// Reads up to and including the next `byte`, or to the end of the stream,
    /// appending what it read to `buf`; returns how many bytes that was.
    fn read_until(&mut self, byte: u8, buf: &mut Vec<u8>) -> (r: Result<usize, Self::Error>)
        requires
            old(self).offset() <= old(self).content().len(),
        ensures
            final(self).content() == old(self).content(),
            final(self).never_fails() == old(self).never_fails(),
            old(self).never_fails() ==> r is Ok,
            match r {
                Ok(n) => {
                    &&& n == row_end(old(self).content(), byte, old(self).offset() as int)
                        - old(self).offset()
                    &&& final(self).offset() == old(self).offset() + n
                    &&& final(buf)@ == old(buf)@ + old(self).content().subrange(
                        old(self).offset() as int,
                        old(self).offset() + n,
                    )
                },
                Err(_) => final(self).offset() == old(self).offset(),
            },
    ;

    /// Reads at most `buf.len()` bytes into the front of `buf`; returns how
    /// many it read, 0 only for an empty `buf` or at the end of the stream.
    fn read(&mut self, buf: &mut [u8]) -> (r: Result<usize, Self::Error>)
        requires
            old(self).offset() <= old(self).content().len(),
        ensures
            final(self).content() == old(self).content(),
            final(self).never_fails() == old(self).never_fails(),
            old(self).never_fails() ==> r is Ok,
            final(buf)@.len() == old(buf)@.len(),
            match r {
                Ok(n) => {
                    &&& n <= old(buf)@.len()
                    &&& old(self).offset() + n <= old(self).content().len()
                    &&& (n == 0 ==> old(buf)@.len() == 0 || old(self).offset()
                        == old(self).content().len())
                    &&& final(self).offset() == old(self).offset() + n
                    &&& final(buf)@.subrange(0, n as int) == old(self).content().subrange(
                        old(self).offset() as int,
                        old(self).offset() + n,
                    )
                },
                Err(_) => final(self).offset() == old(self).offset(),
            },
    ;

    /// The buffered bytes that follow the offset, reading more from the
    /// stream where none are buffered; empty only at the end of the stream.
    fn fill_buf(&mut self) -> (r: Result<&[u8], Self::Error>)
        requires
            old(self).offset() <= old(self).content().len(),
        ensures
            final(self).content() == old(self).content(),
            final(self).never_fails() == old(self).never_fails(),
            final(self).offset() == old(self).offset(),
            old(self).never_fails() ==> r is Ok,
            r is Ok ==> {
                let b = r->Ok_0@;
                &&& old(self).offset() + b.len() <= old(self).content().len()
                &&& b == old(self).content().subrange(
                    old(self).offset() as int,
                    old(self).offset() + b.len() as int,
                )
                &&& (b.len() == 0 <==> old(self).offset() == old(self).content().len())
            },
    ;

    /// Marks `amt` buffered bytes as read.
    fn consume(&mut self, amt: usize)
        requires
            old(self).offset() + amt <= old(self).content().len(),
        ensures
            final(self).content() == old(self).content(),
            final(self).never_fails() == old(self).never_fails(),
            final(self).offset() == old(self).offset() + amt,
    ;

    /// Moves to the absolute offset `to`.
    fn seek_to(&mut self, to: u64) -> (r: Result<(), Self::Error>)
        requires
            to <= old(self).content().len(),
        ensures
            final(self).content() == old(self).content(),
            final(self).never_fails() == old(self).never_fails(),
            old(self).never_fails() ==> r is Ok,
            r is Ok ==> final(self).offset() == to,
            r is Err ==> final(self).offset() == old(self).offset(),
    ;
}

/// A source over bytes held in memory; it never fails.
pub struct MemorySource {
    data: Vec<u8>,
    pos: usize,
}

impl MemorySource {
    pub fn new(data: Vec<u8>) -> (r: MemorySource)
        ensures
            r.content() == data@,
            r.offset() == 0,
            r.never_fails(),
    {
        MemorySource { data, pos: 0 }
    }
}

impl RowSource for MemorySource {
    type Error = ();

    closed spec fn content(&self) -> Seq<u8> {
        self.data@
    }

    closed spec fn offset(&self) -> nat {
        self.pos as nat
    }

    closed spec fn never_fails(&self) -> bool {
        true
    }

    fn read_until(&mut self, byte: u8, buf: &mut Vec<u8>) -> (r: Result<usize, Self::Error>) {
        let len = self.data.len();
        let start = self.pos;
        let ghost s = self.data@;
        let ghost buf0 = buf@;
        let mut found = false;
        while !found && self.pos < len
            invariant
                start <= self.pos <= len,
                len == s.len(),
                self.data@ == s,
                buf@ == buf0 + s.subrange(start as int, self.pos as int),
                found ==> row_end(s, byte, start as int) == self.pos,
                !found ==> row_end(s, byte, start as int) == row_end(s, byte, self.pos as int),
            decreases len - self.pos,
        {
            let b = self.data[self.pos];
            buf.push(b);
            self.pos = self.pos + 1;
            assert(buf@ =~= buf0 + s.subrange(start as int, self.pos as int));
            found = b == byte;
        }
        Ok(self.pos - start)
    }

    fn read(&mut self, buf: &mut [u8]) -> (r: Result<usize, Self::Error>) {
        let len = self.data.len();
        let start = self.pos;
        let ghost s = self.data@;
        let mut i: usize = 0;
        while i < buf.len() && self.pos < len
            invariant
                self.pos == start + i,
                self.pos <= len,
                len == s.len(),
                i <= buf@.len(),
                buf@.len() == old(buf)@.len(),
                self.data@ == s,
                buf@.subrange(0, i as int) == s.subrange(start as int, self.pos as int),
            decreases buf@.len() - i,
        {
            buf[i] = self.data[self.pos];
            i = i + 1;
            self.pos = self.pos + 1;
            assert(buf@.subrange(0, i as int) =~= s.subrange(start as int, self.pos as int));
        }
        Ok(i)
    }

    fn fill_buf(&mut self) -> (r: Result<&[u8], Self::Error>) {
        let len = self.data.len();
        Ok(slice_subrange(self.data.as_slice(), self.pos, len))
    }

    fn consume(&mut self, amt: usize) {
        let _len = self.data.len();
        self.pos = self.pos + amt;
    }

    fn seek_to(&mut self, to: u64) -> (r: Result<(), Self::Error>) {
        let _len = self.data.len();
        self.pos = to as usize;
        Ok(())
    }
}

} // verus!
