use vstd::prelude::*;

use crate::block::{
    block_bytes, encode_block, terminator, terminator_bytes, HEADER_LEN, MAX_BLOCK_SIZE,
    TERMINATOR_LEN, TRAILER_LEN,
};
use crate::deflate::deflate_of;
use crate::error::BgzfError;
use crate::reader::{lemma_append_block, stream_from};
use crate::virtual_position::{pack_spec, VirtualPosition, MAX_COMPRESSED_OFFSET};

verus! {

/// Block-size limit of a writer made by `Writer::new`: small enough that even
/// data that does not compress fits in one block.
pub const DEFAULT_BLOCK_SIZE_LIMIT: usize = 65280;

/// Whether the block made of `pending` fits the 16-bit size field and,
/// appended to `output`, stays within 48-bit compressed offsets.
pub open spec fn block_fits(output: Seq<u8>, pending: Seq<u8>) -> bool {
    &&& deflate_of(pending).len() + HEADER_LEN + TRAILER_LEN <= MAX_BLOCK_SIZE
    &&& output.len() + deflate_of(pending).len() + HEADER_LEN + TRAILER_LEN
        <= MAX_COMPRESSED_OFFSET
}

/// Whether every block that writing `data` completes fits, when the data is
/// cut the way a writer cuts it: byte by byte onto `pending`, a block each
/// time `limit` bytes are pending.
pub open spec fn blocks_fit(output: Seq<u8>, pending: Seq<u8>, limit: int, data: Seq<u8>) -> bool
    decreases data.len(),
{
    if data.len() == 0 {
        true
    } else {
        let p = pending.push(data[0]);
        let rest = data.subrange(1, data.len() as int);
        if p.len() >= limit {
            block_fits(output, p) && blocks_fit(output + block_bytes(p), Seq::empty(), limit, rest)
        } else {
            blocks_fit(output, p, limit, rest)
        }
    }
}

/// What a writer holds, as mathematical values.
pub struct WriterState {
    /// The blocks written so far.
    pub output: Seq<u8>,
    /// Bytes accepted but not yet written as a block.
    pub pending: Seq<u8>,
    /// How many bytes make a full block.
    pub limit: int,
}

impl WriterState {
    pub open spec fn wf(self) -> bool {
        &&& 0 < self.limit <= MAX_BLOCK_SIZE
        &&& self.pending.len() < self.limit
        &&& self.output.len() <= MAX_COMPRESSED_OFFSET
        &&& stream_from(self.output, 0, true).1
    }

    /// Every byte accepted so far, in order.
    pub open spec fn written(self) -> Seq<u8> {
        stream_from(self.output, 0, true).0 + self.pending
    }

    /// The virtual position that the next accepted byte will have.
    pub open spec fn virtual_position(self) -> VirtualPosition {
        VirtualPosition(pack_spec(self.output.len() as int, self.pending.len() as int) as u64)
    }
}

/// A writer that gathers bytes into blocks of at most a fixed size and
/// compresses each into an output held in memory.
pub struct Writer {
    inner: Vec<u8>,
    buf: Vec<u8>,
    limit: usize,
}

impl View for Writer {
    type V = WriterState;

    closed spec fn view(&self) -> WriterState {
        WriterState { output: self.inner@, pending: self.buf@, limit: self.limit as int }
    }
}

impl Writer {
    /// An empty writer with the default block-size limit.
    pub fn new() -> (r: Writer)
        ensures
            r@.wf(),
            r@.output.len() == 0,
            r@.pending.len() == 0,
            r@.limit == DEFAULT_BLOCK_SIZE_LIMIT,
            r@.written().len() == 0,
    {
        let w = Writer { inner: Vec::new(), buf: Vec::new(), limit: DEFAULT_BLOCK_SIZE_LIMIT };
        proof {
            assert(w@.written() =~= Seq::<u8>::empty());
        }
        w
    }

    /// An empty writer that makes blocks of `limit` bytes; a limit of 0 or
    /// above the largest block payload is a caller error.
    pub fn with_block_size_limit(limit: usize) -> (r: Result<Writer, BgzfError>)
        ensures
            (0 < limit <= MAX_BLOCK_SIZE) <==> r is Ok,
            r is Err ==> r == Err::<Writer, BgzfError>(BgzfError::Contract),
            r matches Ok(w) ==> w@.wf() && w@.output.len() == 0 && w@.pending.len() == 0
                && w@.limit == limit && w@.written().len() == 0,
    {
        if limit == 0 || limit > MAX_BLOCK_SIZE {
            return Err(BgzfError::Contract);
        }
        let w = Writer { inner: Vec::new(), buf: Vec::new(), limit };
        proof {
            assert(w@.written() =~= Seq::<u8>::empty());
        }
        Ok(w)
    }

    /// The blocks written so far.
    pub fn get_ref(&self) -> (r: &Vec<u8>)
        ensures
            r@ == self@.output,
    {
        &self.inner
    }

    /// The virtual position that the next accepted byte will have.
    pub fn virtual_position(&self) -> (r: VirtualPosition)
        requires
            self@.wf(),
        ensures
            r == self@.virtual_position(),
    {
        VirtualPosition(self.inner.len() as u64 * 0x1_0000 + self.buf.len() as u64)
    }

    /// Writes the pending bytes as one block and empties the buffer; with
    /// nothing pending nothing is written.
    pub fn flush(&mut self) -> (r: Result<(), BgzfError>)
        requires
            old(self)@.wf(),
        ensures
            final(self)@.wf(),
            final(self)@.limit == old(self)@.limit,
            final(self)@.written() == old(self)@.written(),
            old(self)@.pending.len() == 0 ==> r is Ok && final(self)@ == old(self)@,
            r is Ok ==> final(self)@.pending.len() == 0,
            r is Ok && old(self)@.pending.len() > 0 ==> final(self)@.output == old(self)@.output
                + block_bytes(old(self)@.pending),
            old(self)@.pending.len() > 0 && block_fits(old(self)@.output, old(self)@.pending)
                ==> r is Ok,
            r is Err ==> final(self)@ == old(self)@,
    {
        self.emit()
    }

    /// `flush`, also for a buffer that has just reached the limit.
    fn emit(&mut self) -> (r: Result<(), BgzfError>)
        requires
            0 < old(self)@.limit <= MAX_BLOCK_SIZE,
            old(self)@.pending.len() <= old(self)@.limit,
            old(self)@.output.len() <= MAX_COMPRESSED_OFFSET,
            stream_from(old(self)@.output, 0, true).1,
        ensures
            r is Ok ==> final(self)@.wf(),
            final(self)@.limit == old(self)@.limit,
            final(self)@.written() == old(self)@.written(),
            old(self)@.pending.len() == 0 ==> r is Ok && final(self)@ == old(self)@,
            r is Ok ==> final(self)@.pending.len() == 0,
            r is Ok && old(self)@.pending.len() > 0 ==> final(self)@.output == old(self)@.output
                + block_bytes(old(self)@.pending),
            old(self)@.pending.len() > 0 && block_fits(old(self)@.output, old(self)@.pending)
                ==> r is Ok,
            r is Err ==> final(self)@ == old(self)@,
    {
        if self.buf.len() == 0 {
            return Ok(());
        }
        let block = match encode_block(self.buf.as_slice()) {
            Ok(b) => b,
            Err(e) => return Err(e),
        };
        if block.len() as u64 > MAX_COMPRESSED_OFFSET - self.inner.len() as u64 {
            return Err(BgzfError::Contract);
        }
        let ghost before = self@;
        let ghost blk = block@;
        let mut i: usize = 0;
        while i < block.len()
            invariant
                i <= block@.len(),
                block@ == blk,
                self.inner@ == before.output + blk.subrange(0, i as int),
                self.buf@ == before.pending,
                self.limit == before.limit,
            decreases block@.len() - i,
        {
            self.inner.push(block[i]);
            i = i + 1;
            assert(self.inner@ =~= before.output + blk.subrange(0, i as int));
        }
        self.buf.clear();
        proof {
            assert(blk.subrange(0, blk.len() as int) =~= blk);
            lemma_append_block(before.output, blk, before.pending, 0, true);
            assert(self@.written() =~= before.written());
        }
        Ok(())
    }

    /// Accepts `data`; each time the pending bytes reach the block-size
    /// limit they are written as one block.
    pub fn write(&mut self, data: &[u8]) -> (r: Result<(), BgzfError>)
        requires
            old(self)@.wf(),
        ensures
            final(self)@.wf(),
            final(self)@.limit == old(self)@.limit,
            r is Ok ==> final(self)@.written() == old(self)@.written() + data@,
            blocks_fit(old(self)@.output, old(self)@.pending, old(self)@.limit, data@) ==> r is Ok,
            r is Err ==> exists|k: int|
                0 <= k < data@.len() && final(self)@.written() == old(self)@.written()
                    + #[trigger] data@.subrange(0, k),
    {
        let ghost start = self@.written();
        let ghost fits = blocks_fit(old(self)@.output, old(self)@.pending, old(self)@.limit, data@);
        let mut i: usize = 0;
        proof {
            assert(data@.subrange(0, data@.len() as int) =~= data@);
        }
        while i < data.len()
            invariant
                i <= data@.len(),
                self@.wf(),
                self@.limit == old(self)@.limit,
                self@.written() == start + data@.subrange(0, i as int),
                start == old(self)@.written(),
                fits == blocks_fit(old(self)@.output, old(self)@.pending, old(self)@.limit, data@),
                fits ==> blocks_fit(
                    self@.output,
                    self@.pending,
                    self@.limit,
                    data@.subrange(i as int, data@.len() as int),
                ),
            decreases data@.len() - i,
        {
            let ghost pending0 = self@.pending;
            let ghost output0 = self@.output;
            let ghost rest = data@.subrange(i as int, data@.len() as int);
            proof {
                assert(rest[0] == data@[i as int]);
                assert(rest.subrange(1, rest.len() as int) =~= data@.subrange(
                    i + 1,
                    data@.len() as int,
                ));
            }
            let ghost stream0 = stream_from(self@.output, 0, true).0;
            self.buf.push(data[i]);
            i = i + 1;
            proof {
                assert(self@.pending == pending0.push(data@[i - 1]));
                assert(stream_from(self@.output, 0, true).0 == stream0);
                assert(stream0 + pending0 == start + data@.subrange(0, i - 1));
                assert(stream0 + pending0.push(data@[i - 1]) =~= (stream0 + pending0).push(data@[i - 1]));
                assert(data@.subrange(0, i as int) =~= data@.subrange(0, i - 1).push(data@[i - 1]));
                assert(self@.written() =~= start + data@.subrange(0, i as int));
            }
            let ghost p = self@.pending;
            let ghost next_rest = data@.subrange(i as int, data@.len() as int);
            proof {
                assert(p == pending0.push(rest[0]));
                assert(next_rest == rest.subrange(1, rest.len() as int));
                if fits {
                    assert(blocks_fit(output0, pending0, self@.limit, rest));
                    if p.len() >= self@.limit {
                        assert(block_fits(output0, p));
                        assert(blocks_fit(output0 + block_bytes(p), Seq::empty(), self@.limit, next_rest));
                    } else {
                        assert(blocks_fit(output0, p, self@.limit, next_rest));
                    }
                }
            }
            if self.buf.len() == self.limit {
                match self.emit() {
                    Ok(()) => {
                        proof {
                            assert(self@.pending =~= Seq::<u8>::empty());
                        }
                    },
                    Err(e) => {
                        self.buf.pop();
                        proof {
                            assert(self@.pending =~= pending0);
                            assert(self@.written() == start + data@.subrange(0, i - 1));
                        }
                        return Err(e);
                    },
                }
            }
        }
        proof {
            assert(data@.subrange(0, data@.len() as int) =~= data@);
        }
        Ok(())
    }

    /// Writes what is pending, then the terminator block, and hands back the
    /// whole output.
    pub fn finish(self) -> (r: Result<Vec<u8>, BgzfError>)
        requires
            self@.wf(),
        ensures
            r matches Ok(o) ==> {
                &&& self@.pending.len() == 0 ==> o@ == self@.output + terminator_bytes()
                &&& self@.pending.len() > 0 ==> o@ == self@.output + block_bytes(self@.pending)
                    + terminator_bytes()
                &&& stream_from(o@.subrange(0, o@.len() - TERMINATOR_LEN), 0, true).0
                    == self@.written()
            },
            self@.pending.len() == 0 ==> r is Ok,
            block_fits(self@.output, self@.pending) ==> r is Ok,
    {
        let mut w = self;
        match w.flush() {
            Ok(()) => {},
            Err(e) => return Err(e),
        }
        let ghost flushed = w@.output;
        let mut out = w.inner;
        let t = terminator();
        let mut i: usize = 0;
        while i < TERMINATOR_LEN
            invariant
                i <= TERMINATOR_LEN,
                t@ == terminator_bytes(),
                out@ == flushed + t@.subrange(0, i as int),
            decreases TERMINATOR_LEN - i,
        {
            out.push(t[i]);
            i = i + 1;
            assert(out@ =~= flushed + t@.subrange(0, i as int));
        }
        proof {
            assert(t@.subrange(0, TERMINATOR_LEN as int) =~= t@);
            assert(out@.subrange(0, out@.len() - TERMINATOR_LEN) =~= flushed);
            assert(w@.pending =~= Seq::<u8>::empty());
            assert(w@.written() =~= stream_from(flushed, 0, true).0);
        }
        Ok(out)
    }
}

} // verus!
