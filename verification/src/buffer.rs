//! An owned region of elements with an explicit write cursor.
//!
//! The cursor separates the committed prefix `[0, offset)`, which readers
//! may consume, from the free suffix `[offset, capacity)`, which a packing
//! routine writes into.  The cursor only moves through `increment`, whose
//! caller asserts that the free space was really written, and `reset`,
//! which returns it to 0 for reuse.  The capacity never changes.
use vstd::prelude::*;
use vstd::slice::slice_subrange;

verus! {

/// Heap memory plus an offset cursor.
#[derive(Debug)]
pub struct Buffer<T> {
    buf: Vec<T>,
    offset: usize,
}

impl<T> Buffer<T> {
    /// A fresh buffer with the given capacity, default-initialized (never
    /// uninitialized, so a read before a write stays safe); the cursor
    /// starts at 0.
    pub fn with_capacity(len: usize) -> (b: Buffer<T>) where T: Clone + Default
        ensures
            b.wf(),
            b.contents().len() == len,
            b.cursor() == 0,
    {
        Buffer { buf: vec![Default::default(); len], offset: 0 }
    }

    /// The cursor never passes the capacity.
    pub closed spec fn wf(self) -> bool {
        self.offset <= self.buf@.len()
    }

    /// The whole owned region, committed and free together.
    pub closed spec fn contents(self) -> Seq<T> {
        self.buf@
    }

    /// The write cursor: how many elements are committed.
    pub closed spec fn cursor(self) -> nat {
        self.offset as nat
    }

    /// Takes ownership of existing storage; the cursor starts at 0.
    pub fn from_vec(vec: Vec<T>) -> (b: Buffer<T>)
        ensures
            b.wf(),
            b.contents() == vec@,
            b.cursor() == 0,
    {
        Buffer { buf: vec, offset: 0 }
    }

    /// Takes ownership of boxed storage; the cursor starts at 0.
    pub fn from_boxed(boxed: Box<[T]>) -> (b: Buffer<T>)
        ensures
            b.wf(),
            b.contents() == boxed@,
            b.cursor() == 0,
    {
        Buffer { buf: boxed.into_vec(), offset: 0 }
    }

    /// The committed (written) length.
    pub fn len(&self) -> (r: usize)
        ensures
            r == self.cursor(),
    {
        self.offset
    }

    /// The total allocation length; fixed for the buffer's lifetime.
    pub fn capacity(&self) -> (r: usize)
        ensures
            r == self.contents().len(),
    {
        self.buf.len()
    }

    /// The remaining free space.
    pub fn space(&self) -> (r: usize)
        requires
            self.wf(),
        ensures
            r == self.contents().len() - self.cursor(),
    {
        self.buf.len() - self.offset
    }

    /// Commits `by` elements after a successful write into the free
    /// suffix.  The caller must have derived `by` from a real write.
    pub fn increment(&mut self, by: usize)
        requires
            old(self).wf(),
            by <= old(self).contents().len() - old(self).cursor(),
        ensures
            final(self).wf(),
            final(self).cursor() == old(self).cursor() + by,
            final(self).contents() == old(self).contents(),
    {
        let _cap = self.buf.len();
        self.offset = self.offset + by;
    }

    /// Returns the cursor to 0 for reuse; the capacity and the stored
    /// elements are untouched, so the buffer is as good as fresh.
    pub fn reset(&mut self)
        ensures
            final(self).wf(),
            final(self).cursor() == 0,
            final(self).contents() == old(self).contents(),
    {
        self.offset = 0;
    }

    /// The free suffix, for a packing routine to write into.  Writes
    /// through the returned slice land in `[cursor, capacity)`; commit
    /// them afterwards with `increment`.
    pub fn as_mut_slice(&mut self) -> (r: &mut [T])
        requires
            old(self).wf(),
        ensures
            r@ == old(self).contents().skip(old(self).cursor() as int),
            final(self).wf(),
            final(self).cursor() == old(self).cursor(),
            final(self).contents() == old(self).contents().take(old(self).cursor() as int)
                + final(r)@,
    {
        let off = self.offset;
        let s = self.buf.as_mut_slice();
        let (_pre, rest) = s.split_at_mut(off);
        rest
    }

    /// The committed prefix, for reading.
    pub fn as_slice(&self) -> (r: &[T])
        requires
            self.wf(),
        ensures
            r@ == self.contents().subrange(0, self.cursor() as int),
    {
        let s = self.buf.as_slice();
        slice_subrange(s, 0, self.offset)
    }
}

} // verus!
