use vstd::prelude::*;

use crate::block::{
    decode_block, header_ok, is_terminator_at, terminator_bytes, TERMINATOR_LEN, lemma_truncated_block, le16, le32, parse_block, Parsed, HEADER_LEN, MAX_BLOCK_SIZE, TRAILER_LEN,
};
use crate::error::BgzfError;
use crate::virtual_position::{
    lemma_pack_unpack, pack_spec, VirtualPosition, MAX_COMPRESSED_OFFSET,
};

verus! {

/// The decompressed bytes from the block at `pos` on, block after block, and
/// whether the walk reached the end of `s` cleanly (`false` where a block
/// failed to decode).
pub open spec fn stream_from(s: Seq<u8>, pos: int, verify: bool) -> (Seq<u8>, bool)
    decreases s.len() - pos,
{
    match parse_block(s, pos, verify) {
        Parsed::End => (Seq::empty(), true),
        Parsed::Bad(_) => (Seq::empty(), false),
        Parsed::Block(d, next) => {
            if pos < next && next <= s.len() {
                let r = stream_from(s, next, verify);
                (d + r.0, r.1)
            } else {
                (Seq::empty(), false)
            }
        },
    }
}

/// The logical stream that starts at the virtual position (`c`, `u`), or
/// `None` where that position cannot be sought (past the source, or past the
/// end of the block found there).
pub open spec fn seek_target(s: Seq<u8>, verify: bool, c: int, u: int) -> Option<(Seq<u8>, bool)> {
    if c > s.len() {
        None
    } else {
        match parse_block(s, c, verify) {
            Parsed::End => if u == 0 {
                Some((Seq::empty(), true))
            } else {
                None
            },
            Parsed::Bad(_) => Some((Seq::empty(), false)),
            Parsed::Block(d, next) => if u <= d.len() {
                let r = stream_from(s, next, verify);
                Some((d.subrange(u, d.len() as int) + r.0, r.1))
            } else {
                None
            },
        }
    }
}

/// What a reader holds, as mathematical values.
pub struct ReaderState {
    /// The compressed source.
    pub source: Seq<u8>,
    /// Whether trailers are checked against the decompressed data.
    pub verify: bool,
    /// Where the loaded block starts in the source.
    pub block_start: int,
    /// Where the block after the loaded one starts.
    pub position: int,
    /// The decompressed data of the loaded block.
    pub block: Seq<u8>,
    /// How much of the loaded block has been read.
    pub cursor: int,
}

impl ReaderState {
    pub open spec fn wf(self) -> bool {
        &&& self.source.len() <= MAX_COMPRESSED_OFFSET
        &&& 0 <= self.block_start <= self.position <= self.source.len()
        &&& 0 <= self.cursor <= self.block.len()
        &&& (self.block_start == self.position && self.block.len() == 0) || parse_block(
            self.source,
            self.block_start,
            self.verify,
        ) == Parsed::Block(self.block, self.position)
    }

    /// The bytes still to be read, and whether the stream ends cleanly after them.
    pub open spec fn rest(self) -> (Seq<u8>, bool) {
        let r = stream_from(self.source, self.position, self.verify);
        (self.block.subrange(self.cursor, self.block.len() as int) + r.0, r.1)
    }

    /// The virtual position of the next byte to read: once the loaded block
    /// is used up, that is the start of the next block.
    pub open spec fn virtual_position(self) -> VirtualPosition {
        if self.cursor == self.block.len() {
            VirtualPosition(pack_spec(self.position, 0) as u64)
        } else {
            VirtualPosition(pack_spec(self.block_start, self.cursor) as u64)
        }
    }
}

/// A reader of a block-compressed source held in memory, with random access
/// through virtual positions.
pub struct Reader {
    inner: Vec<u8>,
    verify: bool,
    block_start: usize,
    position: usize,
    block: Vec<u8>,
    cursor: usize,
}

impl View for Reader {
    type V = ReaderState;

    closed spec fn view(&self) -> ReaderState {
        ReaderState {
            source: self.inner@,
            verify: self.verify,
            block_start: self.block_start as int,
            position: self.position as int,
            block: self.block@,
            cursor: self.cursor as int,
        }
    }
}

impl Reader {
    /// A reader at the start of `inner` that checks every block's trailer.
    pub fn new(inner: Vec<u8>) -> (r: Reader)
        requires
            inner@.len() <= MAX_COMPRESSED_OFFSET,
        ensures
            r@.wf(),
            r@.source == inner@,
            r@.verify,
            r@.block_start == 0,
            r@.position == 0,
            r@.cursor == 0,
            r@.block.len() == 0,
            r@.rest() == stream_from(inner@, 0, true),
            r@.virtual_position() == VirtualPosition(0),
    {
        Self::with_checksum_verification(inner, true)
    }

    /// A reader at the start of `inner`; `verify` says whether each block's
    /// checksum and length are checked against its decompressed data.
    pub fn with_checksum_verification(inner: Vec<u8>, verify: bool) -> (r: Reader)
        requires
            inner@.len() <= MAX_COMPRESSED_OFFSET,
        ensures
            r@.wf(),
            r@.source == inner@,
            r@.verify == verify,
            r@.block_start == 0,
            r@.position == 0,
            r@.cursor == 0,
            r@.block.len() == 0,
            r@.rest() == stream_from(inner@, 0, verify),
            r@.virtual_position() == VirtualPosition(0),
    {
        let r = Reader { inner, verify, block_start: 0, position: 0, block: Vec::new(), cursor: 0 };
        assert(r@.block.subrange(0, 0) =~= Seq::<u8>::empty());
        assert(r@.rest().0 =~= stream_from(inner@, 0, verify).0);
        r
    }

    /// Where the next block starts in the compressed source.
    pub fn position(&self) -> (r: u64)
        ensures
            r == self@.position,
    {
        self.position as u64
    }

    /// Whether trailers are checked.
    pub fn verifies_checksums(&self) -> (r: bool)
        ensures
            r == self@.verify,
    {
        self.verify
    }

    /// The decompressed data of the loaded block.
    pub fn block(&self) -> (r: &[u8])
        ensures
            r@ == self@.block,
    {
        self.block.as_slice()
    }

    /// Decodes the block at `position()` into the reader's block buffer,
    /// dropping what was left of the previous block, and returns the length
    /// of its decompressed data; `None` where the source has no bytes left.
    pub fn read_block(&mut self) -> (r: Result<Option<usize>, BgzfError>)
        requires
            old(self)@.wf(),
        ensures
            final(self)@.wf(),
            final(self)@.source == old(self)@.source,
            final(self)@.verify == old(self)@.verify,
            match parse_block(old(self)@.source, old(self)@.position, old(self)@.verify) {
                Parsed::End => r == Ok::<Option<usize>, BgzfError>(None) && final(self)@ == old(
                    self,
                )@,
                Parsed::Bad(e) => r == Err::<Option<usize>, BgzfError>(e) && final(self)@.block_start
                    == old(self)@.position && final(self)@.position == old(self)@.position
                    && final(self)@.block.len() == 0,
                Parsed::Block(d, next) => r == Ok::<Option<usize>, BgzfError>(Some(d.len() as usize))
                    && final(self)@.block_start == old(self)@.position && final(self)@.position
                    == next && final(self)@.block == d && final(self)@.cursor == 0,
            },
    {
        match decode_block(self.inner.as_slice(), self.position, self.verify, &mut self.block) {
            Ok(None) => {
                proof {
                    assert(self@.block =~= old(self)@.block);
                }
                Ok(None)
            },
            Ok(Some(size)) => {
                let source_len: usize = self.inner.len();
                proof {
                    match parse_block(self.inner@, self.position as int, self.verify) {
                        Parsed::Block(d, next) => {
                            assert(next <= source_len);
                        },
                        _ => {
                            assert(false);
                        },
                    }
                }
                self.block_start = self.position;
                self.position = self.position + size;
                self.cursor = 0;
                Ok(Some(self.block.len()))
            },
            Err(e) => {
                self.block.clear();
                self.block_start = self.position;
                self.cursor = 0;
                Err(e)
            },
        }
    }

    /// Decodes blocks until the loaded one has bytes left to read; `false`
    /// where the stream has ended cleanly first.
    fn fill_block(&mut self) -> (r: Result<bool, BgzfError>)
        requires
            old(self)@.wf(),
        ensures
            final(self)@.wf(),
            final(self)@.source == old(self)@.source,
            final(self)@.verify == old(self)@.verify,
            final(self)@.rest() == old(self)@.rest(),
            r == Ok::<bool, BgzfError>(true) ==> final(self)@.cursor < final(self)@.block.len(),
            r == Ok::<bool, BgzfError>(false) ==> old(self)@.rest().0.len() == 0 && old(
                self,
            )@.rest().1,
            r is Err ==> old(self)@.rest().0.len() == 0 && !old(self)@.rest().1,
    {
        while self.cursor == self.block.len()
            invariant
                self@.wf(),
                self@.source == old(self)@.source,
                self@.verify == old(self)@.verify,
                self@.rest() == old(self)@.rest(),
            decreases self@.source.len() - self@.position,
        {
            proof {
                lemma_rest_at_boundary(self@);
                lemma_parse_next(self@.source, self@.position, self@.verify);
            }
            let ghost before = self@;
            match self.read_block() {
                Ok(None) => {
                    return Ok(false);
                },
                Ok(Some(_)) => {
                    proof {
                        assert(self@.block.subrange(0, self@.block.len() as int) =~= self@.block);
                        assert(self@.rest().0 =~= before.rest().0);
                    }
                },
                Err(e) => {
                    return Err(e);
                },
            }
        }
        Ok(true)
    }

    /// Moves up to `n` bytes of the loaded block onto the end of `buf`.
    fn copy_out(&mut self, buf: &mut Vec<u8>, n: usize) -> (k: usize)
        requires
            old(self)@.wf(),
            old(self)@.cursor < old(self)@.block.len(),
        ensures
            final(self)@.wf(),
            final(self)@.source == old(self)@.source,
            final(self)@.verify == old(self)@.verify,
            ({
                let rest = old(self)@.rest();
                &&& k <= n
                &&& k <= rest.0.len()
                &&& n > 0 ==> k > 0
                &&& final(buf)@ == old(buf)@ + rest.0.subrange(0, k as int)
                &&& final(self)@.rest() == (rest.0.subrange(k as int, rest.0.len() as int), rest.1)
            }),
    {
        let start = self.cursor;
        let blen: usize = self.block.len();
        let avail = blen - start;
        let k: usize = if n < avail {
            n
        } else {
            avail
        };
        let mut i: usize = 0;
        while i < k
            invariant
                i <= k,
                start + k <= blen,
                blen == self.block@.len(),
                self@ == old(self)@,
                buf@ == old(buf)@ + self.block@.subrange(start as int, start + i),
            decreases k - i,
        {
            buf.push(self.block[start + i]);
            i = i + 1;
            assert(buf@ =~= old(buf)@ + self.block@.subrange(start as int, start + i));
        }
        self.cursor = start + k;
        proof {
            let rest = old(self)@.rest();
            let b = old(self)@.block;
            assert(rest.0.subrange(0, k as int) =~= b.subrange(start as int, start + k));
            assert(self@.rest().0 =~= rest.0.subrange(k as int, rest.0.len() as int));
        }
        k
    }

    /// Reads at most `n` bytes onto the end of `buf` and returns how many.
    /// Bytes come from the loaded block; where it is used up, the next
    /// block is decoded first. 0 bytes (for `n > 0`) means the stream has
    /// ended cleanly; an error means a block failed to decode before any
    /// byte could be read.
    pub fn read(&mut self, buf: &mut Vec<u8>, n: usize) -> (r: Result<usize, BgzfError>)
        requires
            old(self)@.wf(),
        ensures
            final(self)@.wf(),
            final(self)@.source == old(self)@.source,
            final(self)@.verify == old(self)@.verify,
            r matches Ok(k) ==> {
                let rest = old(self)@.rest();
                &&& k <= n
                &&& k <= rest.0.len()
                &&& final(buf)@ == old(buf)@ + rest.0.subrange(0, k as int)
                &&& final(self)@.rest() == (rest.0.subrange(k as int, rest.0.len() as int), rest.1)
                &&& k == 0 ==> n == 0 || (rest.0.len() == 0 && rest.1)
            },
            r is Err ==> old(self)@.rest().0.len() == 0 && !old(self)@.rest().1 && final(buf)@
                == old(buf)@,
    {
        match self.fill_block() {
            Ok(true) => Ok(self.copy_out(buf, n)),
            Ok(false) => {
                proof {
                    let rest = old(self)@.rest();
                    assert(rest.0.subrange(0, 0) =~= Seq::<u8>::empty());
                    assert(rest.0.subrange(0, rest.0.len() as int) =~= rest.0);
                    assert(buf@ =~= old(buf)@ + rest.0.subrange(0, 0));
                }
                Ok(0)
            },
            Err(e) => Err(e),
        }
    }

    /// Whether the reader has reached the end of the source and the last
    /// block it loaded is the terminator block, which tells a properly closed
    /// stream from one that was cut at a block boundary.
    pub fn is_terminated(&self) -> (r: bool)
        requires
            self@.wf(),
        ensures
            r == (self@.position == self@.source.len() && self@.block_start + TERMINATOR_LEN
                == self@.position && self@.source.subrange(
                self@.block_start,
                self@.block_start + TERMINATOR_LEN,
            ) == terminator_bytes()),
    {
        self.position == self.inner.len() && self.position - self.block_start == TERMINATOR_LEN
            && is_terminator_at(self.inner.as_slice(), self.block_start)
    }

    /// Reads everything up to the end of the stream onto the end of `buf`
    /// and returns how many bytes that was; an error where a block fails to
    /// decode on the way.
    pub fn read_to_end(&mut self, buf: &mut Vec<u8>) -> (r: Result<usize, BgzfError>)
        requires
            old(self)@.wf(),
        ensures
            final(self)@.wf(),
            final(self)@.source == old(self)@.source,
            final(self)@.verify == old(self)@.verify,
            r matches Ok(k) ==> old(self)@.rest().1 && final(buf)@ == old(buf)@ + old(self)@.rest().0
                && k == old(self)@.rest().0.len(),
            r is Err ==> !old(self)@.rest().1,
    {
        let start = buf.len();
        let ghost rest = old(self)@.rest();
        let ghost mut got: Seq<u8> = Seq::empty();
        proof {
            assert(buf@ =~= old(buf)@ + got);
            assert(rest.0 =~= got + self@.rest().0);
        }
        loop
            invariant
                self@.wf(),
                self@.source == old(self)@.source,
                self@.verify == old(self)@.verify,
                self@.rest().1 == rest.1,
                start == old(buf)@.len(),
                rest == old(self)@.rest(),
                buf@ == old(buf)@ + got,
                rest.0 == got + self@.rest().0,
            decreases self@.rest().0.len(),
        {
            let ghost rest0 = self@.rest();
            match self.read(buf, MAX_BLOCK_SIZE) {
                Ok(0) => {
                    proof {
                        assert(rest.0 =~= got);
                    }
                    return Ok(buf.len() - start);
                },
                Ok(k) => {
                    proof {
                        let piece = rest0.0.subrange(0, k as int);
                        assert(buf@ =~= old(buf)@ + (got + piece));
                        assert(rest.0 =~= (got + piece) + self@.rest().0);
                        got = got + piece;
                    }
                },
                Err(e) => {
                    return Err(e);
                },
            }
        }
    }

    /// Moves to the virtual position `pos`. Where its block is the loaded
    /// one only the cursor moves; otherwise that block is decoded. A
    /// position past the source or past the end of its block is a caller
    /// error.
    pub fn seek(&mut self, pos: VirtualPosition) -> (r: Result<(), BgzfError>)
        requires
            old(self)@.wf(),
        ensures
            final(self)@.wf(),
            final(self)@.source == old(self)@.source,
            final(self)@.verify == old(self)@.verify,
            match seek_target(
                old(self)@.source,
                old(self)@.verify,
                pos.compressed_spec(),
                pos.uncompressed_spec(),
            ) {
                None => r == Err::<(), BgzfError>(BgzfError::Contract),
                Some(t) => final(self)@.rest() == t && (r is Ok <==> !(parse_block(
                    old(self)@.source,
                    pos.compressed_spec(),
                    old(self)@.verify,
                ) is Bad)),
            },
            r is Ok ==> final(self)@.block_start == pos.compressed_spec() && final(self)@.cursor
                == pos.uncompressed_spec(),
    {
        let c = pos.compressed();
        let u = pos.uncompressed() as usize;
        if c > self.inner.len() as u64 {
            return Err(BgzfError::Contract);
        }
        let c = c as usize;
        if c == self.block_start && self.block_start < self.position {
            if u > self.block.len() {
                return Err(BgzfError::Contract);
            }
            self.cursor = u;
            return Ok(());
        }
        let res = decode_block(self.inner.as_slice(), c, self.verify, &mut self.block);
        proof {
            lemma_parse_next(self@.source, c as int, self@.verify);
        }
        match res {
            Ok(Some(size)) => {
                if u > self.block.len() {
                    self.block.clear();
                    self.block_start = c;
                    self.position = c;
                    self.cursor = 0;
                    return Err(BgzfError::Contract);
                }
                self.block_start = c;
                self.position = c + size;
                self.cursor = u;
                Ok(())
            },
            Ok(None) => {
                self.block.clear();
                self.block_start = c;
                self.position = c;
                self.cursor = 0;
                proof {
                    assert(self@.rest().0 =~= Seq::<u8>::empty());
                }
                if u == 0 {
                    Ok(())
                } else {
                    Err(BgzfError::Contract)
                }
            },
            Err(e) => {
                self.block.clear();
                self.block_start = c;
                self.position = c;
                self.cursor = 0;
                proof {
                    assert(self@.rest().0 =~= Seq::<u8>::empty());
                }
                Err(e)
            },
        }
    }

    /// The virtual position of the next byte to read.
    pub fn virtual_position(&self) -> (r: VirtualPosition)
        requires
            self@.wf(),
        ensures
            r == self@.virtual_position(),
    {
        if self.cursor == self.block.len() {
            VirtualPosition(self.position as u64 * 0x1_0000)
        } else {
            proof {
                lemma_block_len(self@);
            }
            VirtualPosition(self.block_start as u64 * 0x1_0000 + self.cursor as u64)
        }
    }
}

proof fn lemma_block_len(st: ReaderState)
    requires
        st.wf(),
    ensures
        st.block.len() <= MAX_BLOCK_SIZE,
        st.block.len() > 0 ==> st.block_start + HEADER_LEN + TRAILER_LEN <= st.position,
{
}

proof fn lemma_parse_next(s: Seq<u8>, pos: int, verify: bool)
    requires
        0 <= pos,
    ensures
        parse_block(s, pos, verify) matches Parsed::Block(d, next) ==> pos + HEADER_LEN
            + TRAILER_LEN <= next <= s.len() && d.len() <= MAX_BLOCK_SIZE,
{
}

/// A state whose block is used up reads on from the block after it.
proof fn lemma_rest_at_boundary(st: ReaderState)
    requires
        st.wf(),
        st.cursor == st.block.len(),
    ensures
        st.rest().0 == stream_from(st.source, st.position, st.verify).0,
        st.rest().1 == stream_from(st.source, st.position, st.verify).1,
{
    assert(st.block.subrange(st.cursor, st.block.len() as int) =~= Seq::<u8>::empty());
    assert(st.rest().0 =~= stream_from(st.source, st.position, st.verify).0);
}

/// Seeking to the virtual position that a reader reports, from any state over
/// the same source, yields exactly the bytes that the reader would go on to
/// read from where it stands, and ends the same way.
pub proof fn lemma_seek_consistency(st: ReaderState)
    requires
        st.wf(),
    ensures
        seek_target(
            st.source,
            st.verify,
            st.virtual_position().compressed_spec(),
            st.virtual_position().uncompressed_spec(),
        ) == Some(st.rest()),
{
    lemma_block_len(st);
    if st.cursor == st.block.len() {
        lemma_pack_unpack(st.position, 0);
        lemma_rest_at_boundary(st);
        lemma_parse_next(st.source, st.position, st.verify);
        match parse_block(st.source, st.position, st.verify) {
            Parsed::Block(d, next) => {
                assert(d.subrange(0, d.len() as int) =~= d);
            },
            _ => {},
        }
    } else {
        lemma_pack_unpack(st.block_start, st.cursor);
    }
}

/// A block keeps its meaning when bytes are appended after it.
proof fn lemma_parse_extend(s: Seq<u8>, t: Seq<u8>, pos: int, verify: bool)
    requires
        0 <= pos,
        parse_block(s, pos, verify) is Block,
    ensures
        parse_block(s + t, pos, verify) == parse_block(s, pos, verify),
{
    let u = s + t;
    let size = le16(s, pos + 16) + 1;
    assert(u.subrange(pos + 18, pos + size - 8) =~= s.subrange(pos + 18, pos + size - 8));
}

/// A block reads the same when bytes are put in front of it.
proof fn lemma_parse_shift(p: Seq<u8>, b: Seq<u8>, verify: bool)
    requires
        parse_block(b, 0, verify) is Block,
    ensures
        parse_block(p + b, p.len() as int, verify) == (match parse_block(b, 0, verify) {
            Parsed::Block(d, next) => Parsed::Block(d, next + p.len()),
            other => other,
        }),
{
    let u = p + b;
    let o = p.len() as int;
    assert forall|i: int| 0 <= i < b.len() implies u[o + i] == b[i] by {}
    let size = le16(b, 16) + 1;
    assert(le16(u, o + 16) == le16(b, 16));
    assert(u.subrange(o + 18, o + size - 8) =~= b.subrange(18, size - 8));
    assert(le32(u, o + size - 8) == le32(b, size - 8));
    assert(le32(u, o + size - 4) == le32(b, size - 4));
}

/// Appending one whole block to a cleanly decoding stream appends its data.
pub(crate) proof fn lemma_append_block(s: Seq<u8>, b: Seq<u8>, d: Seq<u8>, pos: int, verify: bool)
    requires
        0 <= pos <= s.len(),
        stream_from(s, pos, verify).1,
        parse_block(b, 0, verify) == Parsed::Block(d, b.len() as int),
    ensures
        stream_from(s + b, pos, verify) == (stream_from(s, pos, verify).0 + d, true),
    decreases s.len() - pos,
{
    let u = s + b;
    if pos == s.len() {
        lemma_parse_shift(s, b, verify);
        assert(parse_block(u, u.len() as int, verify) == Parsed::End);
        assert(stream_from(u, u.len() as int, verify) == (Seq::<u8>::empty(), true));
        assert(stream_from(u, pos, verify).0 =~= stream_from(s, pos, verify).0 + d);
    } else {
        match parse_block(s, pos, verify) {
            Parsed::Block(d1, next) => {
                lemma_parse_extend(s, b, pos, verify);
                lemma_parse_next(s, pos, verify);
                lemma_append_block(s, b, d, next, verify);
                assert(stream_from(u, pos, verify).0 =~= stream_from(s, pos, verify).0 + d);
            },
            _ => {},
        }
    }
}

/// A stream that breaks off inside a block does not read as a clean end:
/// appending part of a block to a cleanly decoding stream makes the walk
/// over it fail.
pub proof fn lemma_truncated_stream(s: Seq<u8>, b: Seq<u8>, k: int, pos: int, verify: bool)
    requires
        0 <= pos <= s.len(),
        stream_from(s, pos, verify).1,
        parse_block(b, 0, verify) is Block,
        parse_block(b, 0, verify)->Block_1 == b.len(),
        0 < k < b.len(),
    ensures
        !stream_from(s + b.subrange(0, k), pos, verify).1,
    decreases s.len() - pos,
{
    let t = b.subrange(0, k);
    let u = s + t;
    if pos == s.len() {
        lemma_truncated_block(b, k, verify);
        assert forall|i: int| 0 <= i < t.len() implies u[pos + i] == t[i] by {}
        if t.len() >= HEADER_LEN {
            assert(header_ok(u, pos) == header_ok(t, 0));
            assert(le16(u, pos + 16) == le16(t, 16));
        }
    } else {
        match parse_block(s, pos, verify) {
            Parsed::Block(d1, next) => {
                lemma_parse_extend(s, t, pos, verify);
                lemma_parse_next(s, pos, verify);
                lemma_truncated_stream(s, b, k, next, verify);
            },
            _ => {},
        }
    }
}

/// Whatever follows a cleanly decoding stream, the walk over the whole goes
/// through the stream's blocks and then on from its end.
proof fn lemma_append_any(s: Seq<u8>, x: Seq<u8>, pos: int, verify: bool)
    requires
        0 <= pos <= s.len(),
        stream_from(s, pos, verify).1,
    ensures
        stream_from(s + x, pos, verify).0 == stream_from(s, pos, verify).0 + stream_from(
            s + x,
            s.len() as int,
            verify,
        ).0,
        stream_from(s + x, pos, verify).1 == stream_from(s + x, s.len() as int, verify).1,
    decreases s.len() - pos,
{
    let u = s + x;
    if pos == s.len() {
        assert(stream_from(s, pos, verify).0 =~= Seq::<u8>::empty());
        assert(stream_from(u, pos, verify).0 =~= stream_from(s, pos, verify).0 + stream_from(
            u,
            s.len() as int,
            verify,
        ).0);
    } else {
        match parse_block(s, pos, verify) {
            Parsed::Block(d1, next) => {
                lemma_parse_extend(s, x, pos, verify);
                lemma_parse_next(s, pos, verify);
                lemma_append_any(s, x, next, verify);
                assert(stream_from(u, pos, verify).0 =~= stream_from(s, pos, verify).0
                    + stream_from(u, s.len() as int, verify).0);
            },
            _ => {},
        }
    }
}

/// The virtual position that a writer hands out, made of the length of the
/// cleanly decoding output `s` so far and the number `u` of bytes pending,
/// addresses in the finished stream exactly the logical position it stood
/// at: seeking there yields what sequential reading yields after the first
/// (bytes decoded from `s`) + `u` bytes. `b` is the block that the pending
/// bytes go into (its data `d` starts with them) and `t` anything after it.
pub proof fn lemma_written_offset_addresses_stream(
    s: Seq<u8>,
    b: Seq<u8>,
    d: Seq<u8>,
    t: Seq<u8>,
    u: int,
    verify: bool,
)
    requires
        stream_from(s, 0, verify).1,
        parse_block(b, 0, verify) == Parsed::Block(d, b.len() as int),
        0 <= u <= d.len(),
    ensures
        ({
            let full = stream_from(s + b + t, 0, verify);
            let k = stream_from(s, 0, verify).0.len() + u;
            seek_target(s + b + t, verify, s.len() as int, u) == Some(
                (full.0.subrange(k, full.0.len() as int), full.1),
            )
        }),
{
    let x = b + t;
    let all = s + x;
    assert(s + b + t =~= all);
    lemma_parse_extend(b, t, 0, verify);
    lemma_parse_shift(s, x, verify);
    lemma_parse_next(x, 0, verify);
    let end = s.len() as int + b.len() as int;
    let after = stream_from(all, end, verify);
    assert(parse_block(all, s.len() as int, verify) == Parsed::Block(d, end));
    assert(stream_from(all, s.len() as int, verify) == (d + after.0, after.1));
    lemma_append_any(s, x, 0, verify);
    let full = stream_from(all, 0, verify);
    let k = stream_from(s, 0, verify).0.len() + u;
    assert(full.0 =~= stream_from(s, 0, verify).0 + (d + after.0));
    assert(full.0.subrange(k, full.0.len() as int) =~= d.subrange(u, d.len() as int) + after.0);
}

} // verus!
