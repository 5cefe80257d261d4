//! A bounds-checked cursor over a buffer of candidate data.

use crate::error::{Error, Result};
use vstd::prelude::*;
use vstd::slice::slice_subrange;

verus! {

/// What a window is, to its users: a cursor into a byte buffer, the size of
/// a block, and the bound that the cursor never passes.
pub struct WindowView {
    pub pos: nat,
    pub blocksize: nat,
    pub limit: nat,
    pub data: Seq<u8>,
}

impl WindowView {
    /// The cursor is within its bound, and a whole block lies in the buffer
    /// wherever the cursor stands.
    pub open spec fn wf(self) -> bool {
        &&& self.pos <= self.limit
        &&& self.limit + self.blocksize <= self.data.len()
    }

    /// The block that starts `offset` bytes after the cursor.
    pub open spec fn block_at(self, offset: int) -> Seq<u8> {
        self.data.subrange(self.pos + offset, self.pos + offset + self.blocksize)
    }

    /// The same window with its cursor `n` bytes further on.
    pub open spec fn advanced(self, n: int) -> WindowView {
        WindowView { pos: (self.pos + n) as nat, ..self }
    }
}

/// `v` where it fits the machine's word, the largest word otherwise.
pub open spec fn saturated(v: int) -> usize {
    if v > usize::MAX {
        usize::MAX
    } else {
        v as usize
    }
}

/// A bounds-checked cursor over a borrowed byte buffer.
pub struct DataWindow<'a> {
    pos: usize,
    blocksize: usize,
    limit: usize,
    data: &'a [u8],
}

impl<'a> View for DataWindow<'a> {
    type V = WindowView;

    closed spec fn view(&self) -> WindowView {
        WindowView {
            pos: self.pos as nat,
            blocksize: self.blocksize as nat,
            limit: self.limit as nat,
            data: self.data@,
        }
    }
}

impl<'a> DataWindow<'a> {
    /// A window at the start of `data` whose cursor may go up to `limit`.
    pub fn new(blocksize: usize, limit: usize, data: &'a [u8]) -> (w: Self)
        requires
            limit + blocksize <= data@.len(),
        ensures
            w@ == (WindowView {
                pos: 0,
                blocksize: blocksize as nat,
                limit: limit as nat,
                data: data@,
            }),
            w@.wf(),
    {
        DataWindow { pos: 0, blocksize, limit, data }
    }

    /// Where the cursor stands.
    pub fn position(&self) -> (p: usize)
        ensures
            p == self@.pos,
    {
        self.pos
    }

    /// Moves the cursor on by one byte, unless that would pass the bound.
    pub fn advance_byte(&mut self) -> (r: Result<()>)
        requires
            old(self)@.wf(),
        ensures
            final(self)@.wf(),
            old(self)@.pos + 1 <= old(self)@.limit ==> r is Ok && final(self)@ == old(self)@.advanced(1),
            old(self)@.pos + 1 > old(self)@.limit ==> final(self)@ == old(self)@ && r == Err::<(), Error>(
                Error::DataOutOfBounds {
                    position: saturated(old(self)@.pos as int + 1),
                    limit: old(self)@.limit as usize,
                },
            ),
    {
        self.advance_n_bytes(1)
    }

    /// Moves the cursor on by `num_blocks` blocks, unless that would pass
    /// the bound.
    pub fn advance_n_blocks(&mut self, num_blocks: usize) -> (r: Result<()>)
        requires
            old(self)@.wf(),
        ensures
            final(self)@.wf(),
            old(self)@.pos + old(self)@.blocksize * num_blocks <= old(self)@.limit ==> r is Ok
                && final(self)@ == old(self)@.advanced(old(self)@.blocksize as int * num_blocks),
            old(self)@.pos + old(self)@.blocksize * num_blocks > old(self)@.limit ==> final(self)@
                == old(self)@ && r == Err::<(), Error>(
                Error::DataOutOfBounds {
                    position: saturated(old(self)@.pos as int + old(self)@.blocksize * num_blocks),
                    limit: old(self)@.limit as usize,
                },
            ),
    {
        match self.blocksize.checked_mul(num_blocks) {
            Some(n) => self.advance_n_bytes(n),
            None => Err(Error::DataOutOfBounds { position: usize::MAX, limit: self.limit }),
        }
    }

    /// Moves the cursor on by `n` bytes, unless that would pass the bound.
    pub fn advance_n_bytes(&mut self, n: usize) -> (r: Result<()>)
        requires
            old(self)@.wf(),
        ensures
            final(self)@.wf(),
            old(self)@.pos + n <= old(self)@.limit ==> r is Ok && final(self)@ == old(self)@.advanced(
                n as int,
            ),
            old(self)@.pos + n > old(self)@.limit ==> final(self)@ == old(self)@ && r == Err::<
                (),
                Error,
            >(
                Error::DataOutOfBounds {
                    position: saturated(old(self)@.pos as int + n),
                    limit: old(self)@.limit as usize,
                },
            ),
    {
        match self.pos.checked_add(n) {
            Some(newpos) => {
                if newpos > self.limit {
                    Err(Error::DataOutOfBounds { position: newpos, limit: self.limit })
                } else {
                    self.pos = newpos;
                    Ok(())
                }
            },
            None => Err(Error::DataOutOfBounds { position: usize::MAX, limit: self.limit }),
        }
    }

    /// The block at the cursor.
    pub fn get_cur_block(&self) -> (block: &'a [u8])
        requires
            self@.wf(),
        ensures
            block@ == self@.block_at(0),
            block@.len() == self@.blocksize,
    {
        assert(self.data@.len() == self.data.len());
        slice_subrange(self.data, self.pos, self.pos + self.blocksize)
    }

    /// The block that starts `n` blocks after the cursor, unless it would
    /// reach beyond the bound.
    pub fn get_nth_block(&self, n: usize) -> (r: Result<&'a [u8]>)
        requires
            self@.wf(),
        ensures
            self@.pos + n * self@.blocksize + self@.blocksize <= self@.limit ==> r is Ok && r->Ok_0@
                == self@.block_at(n * self@.blocksize as int),
            self@.pos + n * self@.blocksize + self@.blocksize > self@.limit ==> r == Err::<
                &[u8],
                Error,
            >(
                Error::DataOutOfBounds {
                    position: saturated(self@.pos as int + n * self@.blocksize + self@.blocksize),
                    limit: self@.limit as usize,
                },
            ),
    {
        let offset = match n.checked_mul(self.blocksize) {
            Some(offset) => offset,
            None => {
                return Err(Error::DataOutOfBounds { position: usize::MAX, limit: self.limit });
            },
        };
        let start = match self.pos.checked_add(offset) {
            Some(start) => start,
            None => {
                return Err(Error::DataOutOfBounds { position: usize::MAX, limit: self.limit });
            },
        };
        let end = match start.checked_add(self.blocksize) {
            Some(end) => end,
            None => {
                return Err(Error::DataOutOfBounds { position: usize::MAX, limit: self.limit });
            },
        };
        if end > self.limit {
            Err(Error::DataOutOfBounds { position: end, limit: self.limit })
        } else {
            Ok(slice_subrange(self.data, start, end))
        }
    }

    /// How far the cursor is from its bound.
    pub fn get_remainder(&self) -> (n: usize)
        requires
            self@.wf(),
        ensures
            n == self@.limit - self@.pos,
    {
        self.limit - self.pos
    }

    /// Whether the cursor stands at its bound.
    pub fn is_at_limit(&self) -> (b: bool)
        ensures
            b == (self@.pos == self@.limit),
    {
        self.pos == self.limit
    }
}

} // verus!
