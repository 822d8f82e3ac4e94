//! A growable output buffer that ends in a byte string of the exact size.

use crate::error::{EncodeError, ErrorKind};
use vstd::prelude::*;

verus! {

/// Smallest capacity after the buffer has grown.
pub const MIN_GROW_CAPACITY: usize = 128;

/// A buffer of a capacity of its own with the bytes written so far at its
/// start.
pub struct NifBinaryWriter {
    pub inner: Vec<u8>,
    pub pos: usize,
}

/// The capacity after room for `required` bytes was asked of a buffer of
/// the capacity `capacity`: the capacity itself where it suffices, else the
/// largest of `required`, twice the capacity and the smallest capacity to
/// grow to.
pub open spec fn grown_capacity(capacity: int, required: int) -> int {
    if required <= capacity {
        capacity
    } else if required >= 2 * capacity && required >= MIN_GROW_CAPACITY {
        required
    } else if 2 * capacity >= MIN_GROW_CAPACITY {
        2 * capacity
    } else {
        MIN_GROW_CAPACITY as int
    }
}

impl NifBinaryWriter {
    /// The written bytes lie within the buffer.
    pub open spec fn wf(&self) -> bool {
        self.pos <= self.inner@.len()
    }

    /// The bytes written so far.
    pub open spec fn written(&self) -> Seq<u8> {
        self.inner@.subrange(0, self.pos as int)
    }

    /// The capacity of the buffer.
    pub open spec fn capacity(&self) -> int {
        self.inner@.len() as int
    }

    /// An empty writer of the given capacity.
    pub fn new(initial_cap: usize) -> (w: Self)
        ensures
            w.wf(),
            w.written() == Seq::<u8>::empty(),
            w.capacity() == initial_cap,
    {
        let inner = vec![0u8; initial_cap];
        let w = NifBinaryWriter { inner, pos: 0 };
        assert(w.written() =~= Seq::<u8>::empty());
        w
    }

    /// Makes room for `additional` more bytes.  Fails, and changes nothing,
    /// where that many bytes cannot be counted.
    pub fn reserve(&mut self, additional: usize) -> (r: Result<(), EncodeError>)
        requires
            old(self).wf(),
        ensures
            final(self).wf(),
            final(self).written() == old(self).written(),
            final(self).pos == old(self).pos,
            match r {
                Ok(_) => old(self).pos + additional <= usize::MAX && final(self).capacity()
                    >= old(self).pos + additional && (old(self).capacity() <= usize::MAX / 2
                    ==> final(self).capacity() == grown_capacity(
                    old(self).capacity(),
                    old(self).pos + additional,
                )),
                Err(e) => e.kind == ErrorKind::IoOrAllocation && old(self).pos + additional
                    > usize::MAX && final(self).capacity() == old(self).capacity(),
            },
    {
        if additional > usize::MAX - self.pos {
            return Err(EncodeError::new(ErrorKind::IoOrAllocation));
        }
        let required = self.pos + additional;
        let len = self.inner.len();
        if required > len {
            let doubled = if len > usize::MAX / 2 {
                usize::MAX
            } else {
                len * 2
            };
            let mut new_cap = required;
            if doubled > new_cap {
                new_cap = doubled;
            }
            if MIN_GROW_CAPACITY > new_cap {
                new_cap = MIN_GROW_CAPACITY;
            }
            let ghost before = self.inner@;
            self.inner.resize(new_cap, 0u8);
            assert(self.inner@.subrange(0, self.pos as int) =~= before.subrange(0, self.pos as int));
        }
        Ok(())
    }

    /// Ends the writer: the bytes written, in a byte string of their exact
    /// size.
    pub fn into_binary(self) -> (r: Vec<u8>)
        requires
            self.wf(),
        ensures
            r@ == self.written(),
    {
        let mut inner = self.inner;
        if self.pos < inner.len() {
            inner.truncate(self.pos);
        }
        assert(inner@ =~= self.written());
        inner
    }

    /// Takes all of `buf`.
    pub fn write(&mut self, buf: &[u8]) -> (r: Result<usize, EncodeError>)
        requires
            old(self).wf(),
        ensures
            final(self).wf(),
            match r {
                Ok(n) => n == buf@.len() && final(self).written() == old(self).written() + buf@,
                Err(e) => e.kind == ErrorKind::IoOrAllocation && final(self).written() == old(
                    self,
                ).written() && old(self).pos + buf@.len() > usize::MAX,
            },
    {
        match self.write_all(buf) {
            Ok(()) => Ok(buf.len()),
            Err(e) => Err(e),
        }
    }

    /// Nothing is held back, so there is nothing to do.
    pub fn flush(&mut self) -> (r: Result<(), EncodeError>)
        ensures
            r is Ok,
            *final(self) == *old(self),
    {
        Ok(())
    }

    /// Takes all of `buf`.
    pub fn write_all(&mut self, buf: &[u8]) -> (r: Result<(), EncodeError>)
        requires
            old(self).wf(),
        ensures
            final(self).wf(),
            match r {
                Ok(_) => final(self).written() == old(self).written() + buf@,
                Err(e) => e.kind == ErrorKind::IoOrAllocation && final(self).written() == old(
                    self,
                ).written() && old(self).pos + buf@.len() > usize::MAX,
            },
    {
        match self.reserve(buf.len()) {
            Ok(()) => {},
            Err(e) => {
                return Err(e);
            },
        }
        let ghost start = self.pos;
        let ghost before = self.written();
        let cap = self.inner.len();
        let mut i: usize = 0;
        while i < buf.len()
            invariant
                i <= buf@.len(),
                cap == self.inner@.len(),
                start + buf@.len() <= self.inner@.len(),
                self.pos == start + i,
                self.inner@.subrange(0, self.pos as int) == before + buf@.subrange(0, i as int),
            decreases buf@.len() - i,
        {
            let ghost prior = self.inner@;
            self.inner.set(self.pos, buf[i]);
            self.pos = self.pos + 1;
            i = i + 1;
            assert(self.inner@.subrange(0, self.pos as int) =~= prior.subrange(0, self.pos - 1).push(
                buf@[i - 1],
            ));
            assert(buf@.subrange(0, i as int) =~= buf@.subrange(0, i - 1).push(buf@[i - 1]));
            assert(self.inner@.subrange(0, self.pos as int) =~= before + buf@.subrange(0, i as int));
        }
        assert(buf@.subrange(0, buf@.len() as int) =~= buf@);
        Ok(())
    }
}

} // verus!
