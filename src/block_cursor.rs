use vstd::prelude::*;

use crate::block::{decode_block, parse_block, Parsed, MAX_BLOCK_SIZE};
use crate::error::BgzfError;
use crate::virtual_position::{pack_spec, VirtualPosition, MAX_COMPRESSED_OFFSET};

verus! {

/// What a block cursor holds, as mathematical values.
pub struct CursorState {
    /// Where the loaded block starts in the compressed source.
    pub block_start: int,
    /// Where the block after it starts.
    pub next_start: int,
    /// The loaded block's decompressed data.
    pub block: Seq<u8>,
    /// How much of it has been read.
    pub cursor: int,
    /// Whether trailers are checked.
    pub verify: bool,
}

impl CursorState {
    pub open spec fn wf(self) -> bool {
        &&& 0 <= self.cursor <= self.block.len() <= MAX_BLOCK_SIZE
        &&& 0 <= self.block_start <= self.next_start <= MAX_COMPRESSED_OFFSET
        &&& self.block.len() > 0 ==> self.block_start < self.next_start
    }

    /// The virtual position of the next byte to read.
    pub open spec fn virtual_position(self) -> VirtualPosition {
        if self.cursor == self.block.len() {
            VirtualPosition(pack_spec(self.next_start, 0) as u64)
        } else {
            VirtualPosition(pack_spec(self.block_start, self.cursor) as u64)
        }
    }
}

/// The reading state of a block-compressed stream that holds one decoded
/// block at a time; the caller fetches each block's bytes from wherever the
/// stream lives, so memory stays bounded by one block.
pub struct BlockCursor {
    block_start: u64,
    next_start: u64,
    block: Vec<u8>,
    cursor: usize,
    verify: bool,
}

impl View for BlockCursor {
    type V = CursorState;

    closed spec fn view(&self) -> CursorState {
        CursorState {
            block_start: self.block_start as int,
            next_start: self.next_start as int,
            block: self.block@,
            cursor: self.cursor as int,
            verify: self.verify,
        }
    }
}

impl BlockCursor {
    /// A cursor before the first block, at offset 0.
    pub fn new(verify: bool) -> (r: BlockCursor)
        ensures
            r@.wf(),
            r@.block_start == 0,
            r@.next_start == 0,
            r@.block.len() == 0,
            r@.cursor == 0,
            r@.verify == verify,
    {
        BlockCursor { block_start: 0, next_start: 0, block: Vec::new(), cursor: 0, verify }
    }

    /// Where the block to fetch next starts, once the loaded one is used up.
    pub fn next_block_offset(&self) -> (r: Option<u64>)
        requires
            self@.wf(),
        ensures
            self@.cursor == self@.block.len() ==> r == Some(self@.next_start as u64),
            self@.cursor < self@.block.len() ==> r is None,
    {
        if self.cursor == self.block.len() {
            Some(self.next_start)
        } else {
            None
        }
    }

    /// Takes `bytes`, fetched from offset `start`, as the block found there:
    /// returns the length of its decompressed data, or `None` where no bytes
    /// were left at `start`. A block that would end past 48-bit offsets is a
    /// caller error.
    pub fn load(&mut self, start: u64, bytes: &[u8]) -> (r: Result<Option<usize>, BgzfError>)
        requires
            old(self)@.wf(),
            start <= MAX_COMPRESSED_OFFSET,
        ensures
            final(self)@.wf(),
            final(self)@.verify == old(self)@.verify,
            match parse_block(bytes@, 0, old(self)@.verify) {
                Parsed::Block(d, next) => if start + next <= MAX_COMPRESSED_OFFSET {
                    &&& r == Ok::<Option<usize>, BgzfError>(Some(d.len() as usize))
                    &&& final(self)@.block == d
                    &&& final(self)@.block_start == start
                    &&& final(self)@.next_start == start + next
                    &&& final(self)@.cursor == 0
                } else {
                    r == Err::<Option<usize>, BgzfError>(BgzfError::Contract)
                },
                Parsed::End => r == Ok::<Option<usize>, BgzfError>(None) && final(self)@.block_start
                    == start && final(self)@.next_start == start && final(self)@.block.len() == 0,
                Parsed::Bad(e) => r == Err::<Option<usize>, BgzfError>(e),
            },
            r is Err ==> final(self)@.block_start == start && final(self)@.next_start == start
                && final(self)@.block.len() == 0,
    {
        let res = decode_block(bytes, 0, self.verify, &mut self.block);
        self.block_start = start;
        self.cursor = 0;
        match res {
            Ok(Some(size)) => {
                if size as u64 > MAX_COMPRESSED_OFFSET - start {
                    self.block.clear();
                    self.next_start = start;
                    return Err(BgzfError::Contract);
                }
                self.next_start = start + size as u64;
                Ok(Some(self.block.len()))
            },
            Ok(None) => {
                self.block.clear();
                self.next_start = start;
                Ok(None)
            },
            Err(e) => {
                self.block.clear();
                self.next_start = start;
                Err(e)
            },
        }
    }

    /// Moves up to `n` unread bytes of the loaded block onto the end of `buf`.
    pub fn read(&mut self, buf: &mut Vec<u8>, n: usize) -> (k: usize)
        requires
            old(self)@.wf(),
        ensures
            final(self)@.wf(),
            final(self)@.block == old(self)@.block,
            final(self)@.block_start == old(self)@.block_start,
            final(self)@.next_start == old(self)@.next_start,
            final(self)@.verify == old(self)@.verify,
            k as int == if n < old(self)@.block.len() - old(self)@.cursor {
                n as int
            } else {
                old(self)@.block.len() - old(self)@.cursor
            },
            final(self)@.cursor == old(self)@.cursor + k,
            final(buf)@ == old(buf)@ + old(self)@.block.subrange(
                old(self)@.cursor,
                old(self)@.cursor + k,
            ),
    {
        let start = self.cursor;
        let blen: usize = self.block.len();
        let avail = blen - start;
        let k: usize = if n < avail {
            n
        } else {
            avail
        };
        let mut i: usize = 0;
        while i < k
            invariant
                i <= k,
                start + k <= blen,
                blen == self.block@.len(),
                self@ == old(self)@,
                buf@ == old(buf)@ + self.block@.subrange(start as int, start + i),
            decreases k - i,
        {
            buf.push(self.block[start + i]);
            i = i + 1;
            assert(buf@ =~= old(buf)@ + self.block@.subrange(start as int, start + i));
        }
        self.cursor = start + k;
        k
    }

    /// The virtual position of the next byte to read.
    pub fn virtual_position(&self) -> (r: VirtualPosition)
        requires
            self@.wf(),
        ensures
            r == self@.virtual_position(),
    {
        if self.cursor == self.block.len() {
            VirtualPosition(self.next_start * 0x1_0000)
        } else {
            VirtualPosition(self.block_start * 0x1_0000 + self.cursor as u64)
        }
    }

    /// Moves the cursor to `pos` where its block is the loaded one and
    /// returns `true`; `false` (nothing moved) where that block must be
    /// fetched and loaded first. Past the end of the loaded block is a
    /// caller error.
    pub fn seek_within(&mut self, pos: VirtualPosition) -> (r: Result<bool, BgzfError>)
        requires
            old(self)@.wf(),
        ensures
            final(self)@.wf(),
            final(self)@.block == old(self)@.block,
            final(self)@.block_start == old(self)@.block_start,
            final(self)@.next_start == old(self)@.next_start,
            final(self)@.verify == old(self)@.verify,
            ({
                let loaded = pos.compressed_spec() == old(self)@.block_start
                    && old(self)@.block_start < old(self)@.next_start;
                &&& !loaded ==> r == Ok::<bool, BgzfError>(false) && final(self)@ == old(self)@
                &&& loaded && pos.uncompressed_spec() <= old(self)@.block.len() ==> r == Ok::<
                    bool,
                    BgzfError,
                >(true) && final(self)@.cursor == pos.uncompressed_spec()
                &&& loaded && pos.uncompressed_spec() > old(self)@.block.len() ==> r == Err::<
                    bool,
                    BgzfError,
                >(BgzfError::Contract) && final(self)@ == old(self)@
            }),
    {
        if pos.compressed() == self.block_start && self.block_start < self.next_start {
            let u = pos.uncompressed() as usize;
            if u > self.block.len() {
                return Err(BgzfError::Contract);
            }
            self.cursor = u;
            Ok(true)
        } else {
            Ok(false)
        }
    }

    /// Moves the cursor to `u` within the loaded block; past its end is a
    /// caller error.
    pub fn set_cursor(&mut self, u: usize) -> (r: Result<(), BgzfError>)
        requires
            old(self)@.wf(),
        ensures
            final(self)@.wf(),
            final(self)@.block == old(self)@.block,
            final(self)@.block_start == old(self)@.block_start,
            final(self)@.next_start == old(self)@.next_start,
            final(self)@.verify == old(self)@.verify,
            u <= old(self)@.block.len() ==> r is Ok && final(self)@.cursor == u,
            u > old(self)@.block.len() ==> r == Err::<(), BgzfError>(BgzfError::Contract)
                && final(self)@ == old(self)@,
    {
        if u > self.block.len() {
            return Err(BgzfError::Contract);
        }
        self.cursor = u;
        Ok(())
    }
}

} // verus!
