//! Writes to a buffer that are held back until they are flushed together.

use vstd::prelude::*;

verus! {

/// `base` with `data` written over it at `offset`.
pub open spec fn patched(base: Seq<u8>, offset: int, data: Seq<u8>) -> Seq<u8> {
    Seq::new(
        base.len(),
        |i: int|
            if offset <= i < offset + data.len() {
                data[i - offset]
            } else {
                base[i]
            },
    )
}

/// `base` after the writes, in the order in which they were made.
pub open spec fn flushed(base: Seq<u8>, writes: Seq<(usize, Seq<u8>)>) -> Seq<u8>
    decreases writes.len(),
{
    if writes.len() == 0 {
        base
    } else {
        patched(flushed(base, writes.drop_last()), writes.last().0 as int, writes.last().1)
    }
}

/// Whether every write lies inside a buffer of `len` bytes.
pub open spec fn writes_fit(writes: Seq<(usize, Seq<u8>)>, len: nat) -> bool {
    forall|i: int| 0 <= i < writes.len() ==> (#[trigger] writes[i]).0 + writes[i].1.len() <= len
}

/// A buffer and the writes that wait for it.
pub struct BufferWriter {
    inner: Vec<u8>,
    buffers: Vec<(usize, Vec<u8>)>,
}

impl BufferWriter {
    /// The buffer as the flushed writes have left it.
    pub closed spec fn bytes(&self) -> Seq<u8> {
        self.inner@
    }

    /// The writes that wait: where, and what.
    pub closed spec fn pending(&self) -> Seq<(usize, Seq<u8>)> {
        Seq::new(self.buffers@.len(), |i: int| (self.buffers@[i].0, self.buffers@[i].1@))
    }

    /// Whether every waiting write lies inside the buffer.
    pub open spec fn in_bounds(&self) -> bool {
        writes_fit(self.pending(), self.bytes().len())
    }

    pub fn new(inner: Vec<u8>) -> (w: Self)
        ensures
            w.bytes() == inner@,
            w.pending() == Seq::<(usize, Seq<u8>)>::empty(),
    {
        let w = Self { inner, buffers: Vec::new() };
        assert(w.pending() =~= Seq::<(usize, Seq<u8>)>::empty());
        w
    }

    /// The buffer, without what waits.
    pub fn as_slice(&self) -> (r: &[u8])
        ensures
            r@ == self.bytes(),
    {
        self.inner.as_slice()
    }

    /// Gives the buffer back, without what waits.
    pub fn into_inner(self) -> (r: Vec<u8>)
        ensures
            r@ == self.bytes(),
    {
        self.inner
    }

    /// Holds back a write of `data` at `offset`.
    pub fn push(&mut self, offset: usize, data: Vec<u8>)
        ensures
            final(self).bytes() == old(self).bytes(),
            final(self).pending() == old(self).pending().push((offset, data@)),
    {
        self.buffers.push((offset, data));
        assert(self.pending() =~= old(self).pending().push((offset, data@)));
    }

    /// The number of writes that wait.
    pub fn len(&self) -> (r: usize)
        ensures
            r == self.pending().len(),
    {
        self.buffers.len()
    }

    /// Makes the waiting writes, in the order in which they came.
    pub fn flush(&mut self)
        requires
            old(self).in_bounds(),
        ensures
            final(self).bytes() == flushed(old(self).bytes(), old(self).pending()),
            final(self).bytes().len() == old(self).bytes().len(),
            final(self).pending() == Seq::<(usize, Seq<u8>)>::empty(),
    {
        let ghost base = self.inner@;
        let ghost writes = self.pending();
        let n = self.buffers.len();
        let total = self.inner.len();
        let mut k: usize = 0;
        assert(writes.take(0) =~= Seq::<(usize, Seq<u8>)>::empty());
        while k < n
            invariant
                k <= n,
                n == writes.len(),
                self.pending() == writes,
                n == self.buffers@.len(),
                self.inner@.len() == base.len(),
                total == base.len(),
                writes_fit(writes, base.len()),
                self.inner@ == flushed(base, writes.take(k as int)),
            decreases n - k,
        {
            let offset = self.buffers[k].0;
            let len = self.buffers[k].1.len();
            let ghost before = self.inner@;
            let ghost data = writes[k as int].1;
            assert(writes[k as int] == self.pending()[k as int]);
            let mut j: usize = 0;
            while j < len
                invariant
                    j <= len,
                    k < n,
                    n == writes.len(),
                    self.pending() == writes,
                    n == self.buffers@.len(),
                    len == data.len(),
                    data == self.buffers@[k as int].1@,
                    offset == writes[k as int].0,
                    offset + len <= before.len(),
                    total == before.len(),
                    self.inner@.len() == before.len(),
                    forall|i: int|
                        0 <= i < before.len() ==> self.inner@[i] == (if offset <= i < offset + j {
                            data[i - offset]
                        } else {
                            before[i]
                        }),
                decreases len - j,
            {
                let byte = self.buffers[k].1[j];
                self.inner[offset + j] = byte;
                j += 1;
            }
            proof {
                assert(self.inner@ =~= patched(before, offset as int, data));
                assert(writes.take(k + 1).drop_last() =~= writes.take(k as int));
                assert(writes.take(k + 1).last() == writes[k as int]);
            }
            k += 1;
        }
        assert(writes.take(n as int) =~= writes);
        self.buffers.clear();
        assert(self.pending() =~= Seq::<(usize, Seq<u8>)>::empty());
    }
}

} // verus!
