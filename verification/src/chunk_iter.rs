use vstd::prelude::*;
use vstd::slice::slice_subrange;

verus! {

/// Marker for a freshly built iterator whose mode is not chosen yet.
#[derive(Debug)]
pub struct DefaultIter {}

/// Marker for block mode: non-overlapping windows, one chunk per step.
#[derive(Debug)]
pub struct ByChunkIter {}

/// Marker for sliding mode: full-size windows, one byte per step.
#[derive(Debug)]
pub struct ByByteIter {}

impl ByByteIter {
    pub const STEP: usize = 1;

    /// How far the sliding cursor advances on an ordinary step.
    pub fn step(&self) -> (r: usize)
        ensures
            r == 1,
    {
        ByByteIter::STEP
    }
}

/// A cursor over windows of a byte buffer. `index` counts chunks in block
/// mode and bytes in sliding mode.
pub struct ChunkIter<'a, T> {
    pub value: &'a Vec<u8>,
    pub chunk_size: usize,
    pub index: usize,
    pub type_iter: T,
}

impl<'a> ChunkIter<'a, DefaultIter> {
    pub fn new(value: &'a Vec<u8>, chunk_size: usize) -> (r: ChunkIter<'a, DefaultIter>)
        ensures
            r.value@ == value@,
            r.chunk_size == chunk_size,
            r.index == 0,
    {
        ChunkIter { value, chunk_size, index: 0, type_iter: DefaultIter {} }
    }

    pub fn by_chunk(self) -> (r: ChunkIter<'a, ByChunkIter>)
        ensures
            r.value@ == self.value@,
            r.chunk_size == self.chunk_size,
            r.index == self.index,
    {
        ChunkIter {
            value: self.value,
            chunk_size: self.chunk_size,
            index: self.index,
            type_iter: ByChunkIter {},
        }
    }

    pub fn by_byte(self) -> (r: ChunkIter<'a, ByByteIter>)
        ensures
            r.value@ == self.value@,
            r.chunk_size == self.chunk_size,
            r.index == self.index,
    {
        ChunkIter {
            value: self.value,
            chunk_size: self.chunk_size,
            index: self.index,
            type_iter: ByByteIter {},
        }
    }
}

impl<'a> ChunkIter<'a, ByChunkIter> {
    /// Yields window `index` of block mode — the bytes from `index`
    /// chunks in, up to one whole chunk or the end of the buffer — and
    /// steps one chunk forward; `None` once the buffer is exhausted.
    pub fn next(&mut self) -> (r: Option<&'a [u8]>)
        requires
            old(self).chunk_size >= 1,
        ensures
            final(self).value@ == old(self).value@,
            final(self).chunk_size == old(self).chunk_size,
            ({
                let start = old(self).index as int * old(self).chunk_size as int;
                let len = old(self).value@.len() as int;
                let stop = if start + old(self).chunk_size <= len {
                    start + old(self).chunk_size
                } else {
                    len
                };
                if start < len {
                    &&& r matches Some(w)
                    &&& w@ == old(self).value@.subrange(start, stop)
                    &&& final(self).index == old(self).index + 1
                } else {
                    &&& r is None
                    &&& final(self).index == old(self).index
                }
            }),
    {
        let len = self.value.len();
        let ghost c = self.chunk_size as int;
        let ghost i = self.index as int;
        if len == 0 {
            return None;
        }
        let quot = (len - 1) / self.chunk_size;
        proof {
            vstd::arithmetic::div_mod::lemma_fundamental_div_mod(len - 1, c);
            let q = (len - 1) as int / c;
            let m = (len - 1) as int % c;
            vstd::arithmetic::div_mod::lemma_remainder_lower(len - 1, c);
            vstd::arithmetic::div_mod::lemma_remainder_upper(len - 1, c);
            vstd::arithmetic::div_mod::lemma_div_pos_is_pos(len - 1, c);
            if i <= q {
                assert(i * c <= q * c) by (nonlinear_arith)
                    requires
                        i <= q,
                        c >= 1,
                ;
            } else {
                assert(i * c >= (q + 1) * c) by (nonlinear_arith)
                    requires
                        i >= q + 1,
                        c >= 1,
                ;
                assert((q + 1) * c == q * c + c) by (nonlinear_arith);
            }
        }
        if self.index > quot {
            return None;
        }
        let start_index = self.index * self.chunk_size;
        self.index = self.index + 1;
        let end_index = if self.chunk_size <= len - start_index {
            start_index + self.chunk_size
        } else {
            len
        };
        Some(slice_subrange(self.value.as_slice(), start_index, end_index))
    }
}

impl<'a> ChunkIter<'a, ByByteIter> {
    /// Yields the full-size window starting `index` bytes in and steps one
    /// byte forward; `None` once fewer than a whole chunk remains.
    pub fn next(&mut self) -> (r: Option<&'a [u8]>)
        requires
            old(self).chunk_size >= 1,
        ensures
            final(self).value@ == old(self).value@,
            final(self).chunk_size == old(self).chunk_size,
            ({
                let start = old(self).index as int;
                let len = old(self).value@.len() as int;
                if start + old(self).chunk_size <= len {
                    &&& r matches Some(w)
                    &&& w@ == old(self).value@.subrange(start, start + old(self).chunk_size)
                    &&& final(self).index == old(self).index + 1
                } else {
                    &&& r is None
                    &&& final(self).index == old(self).index
                }
            }),
    {
        let start_index = self.index * self.type_iter.step();
        if start_index <= self.value.len() && self.chunk_size <= self.value.len() - start_index {
            let end_index = start_index + self.chunk_size;
            self.index = self.index + 1;
            Some(slice_subrange(self.value.as_slice(), start_index, end_index))
        } else {
            None
        }
    }
}

/// Jumping the sliding cursor over chunks it need not examine.
pub trait SkipChunk: Sized {
    /// When the jump stays within the machine's bounds.
    spec fn skip_pre(&self, n: usize) -> bool;

    /// How the cursor after the jump relates to the one before.
    spec fn skip_post(pre: Self, post: Self, n: usize) -> bool;

    fn skip_chunks(&mut self, n: usize)
        requires
            old(self).skip_pre(n),
        ensures
            Self::skip_post(*old(self), *final(self), n),
    ;
}

impl<'a> SkipChunk for ChunkIter<'a, ByByteIter> {
    open spec fn skip_pre(&self, n: usize) -> bool {
        &&& n as int * self.chunk_size as int >= 1
        &&& n as int * self.chunk_size as int <= usize::MAX as int
        &&& self.index as int + n as int * self.chunk_size as int - 1 <= usize::MAX as int
    }

    open spec fn skip_post(pre: Self, post: Self, n: usize) -> bool {
        &&& post.value@ == pre.value@
        &&& post.chunk_size == pre.chunk_size
        &&& post.index == pre.index as int + n as int * pre.chunk_size as int - 1
    }

    /// Advances the cursor by `n` chunks, less the one byte that the
    /// following `next` call will add back.
    fn skip_chunks(&mut self, n: usize) {
        self.index = self.index + (n * self.chunk_size - 1);
    }
}

} // verus!
