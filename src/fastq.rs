use vstd::prelude::*;
use vstd::slice::slice_to_vec;
use vstd::string::StringSliceAdditionalSpecFns;

verus! {

pub const LINE_FEED: u8 = 0x0a;

pub const CARRIAGE_RETURN: u8 = 0x0d;

pub const NAME_PREFIX: u8 = 0x40;

pub const DESCRIPTION_PREFIX: u8 = 0x2b;

/// What can go wrong while reading a FASTQ record.
#[derive(Clone, Copy, Debug, PartialEq, Eq, Structural)]
pub enum FastqError {
    /// A line does not start with the prefix its place requires.
    InvalidData,
    /// The input ended inside a record.
    UnexpectedEof,
}

/// A FASTQ record: name, sequence, description and quality scores, each
/// without its line's prefix and newline.
#[derive(Clone, Debug, PartialEq, Eq)]
pub struct Record {
    pub name: Vec<u8>,
    pub sequence: Vec<u8>,
    pub description: Vec<u8>,
    pub quality_scores: Vec<u8>,
}

impl Default for Record {
    fn default() -> (r: Record)
        ensures
            r.name@.len() == 0,
            r.sequence@.len() == 0,
            r.description@.len() == 0,
            r.quality_scores@.len() == 0,
    {
        Record {
            name: Vec::new(),
            sequence: Vec::new(),
            description: Vec::new(),
            quality_scores: Vec::new(),
        }
    }
}

impl Record {
    /// A record with the given name, sequence and quality scores and an
    /// empty description.
    pub fn new(name: &str, sequence: &str, quality_scores: &str) -> (r: Record)
        ensures
            r.name@ == name.spec_bytes(),
            r.sequence@ == sequence.spec_bytes(),
            r.description@.len() == 0,
            r.quality_scores@ == quality_scores.spec_bytes(),
    {
        Record {
            name: slice_to_vec(name.as_bytes()),
            sequence: slice_to_vec(sequence.as_bytes()),
            description: Vec::new(),
            quality_scores: slice_to_vec(quality_scores.as_bytes()),
        }
    }

    /// Empties all four fields.
    pub fn clear(&mut self)
        ensures
            final(self).name@.len() == 0,
            final(self).sequence@.len() == 0,
            final(self).description@.len() == 0,
            final(self).quality_scores@.len() == 0,
    {
        self.name.clear();
        self.sequence.clear();
        self.description.clear();
        self.quality_scores.clear();
    }

    pub fn description_mut(&mut self) -> (r: &mut Vec<u8>)
        ensures
            *r == old(self).description,
            final(self).description == *final(r),
            final(self).name == old(self).name,
            final(self).sequence == old(self).sequence,
            final(self).quality_scores == old(self).quality_scores,
    {
        &mut self.description
    }
}

/// How many bytes a line starting at `pos` takes, its line feed included.
pub open spec fn line_len(s: Seq<u8>, pos: int) -> int
    decreases s.len() - pos,
{
    if pos < 0 || pos >= s.len() {
        0
    } else if s[pos] == LINE_FEED {
        1
    } else {
        1 + line_len(s, pos + 1)
    }
}

/// `b` without a final line feed, and then without a final carriage return.
pub open spec fn strip_newline(b: Seq<u8>) -> Seq<u8> {
    if b.len() > 0 && b.last() == LINE_FEED {
        let c = b.drop_last();
        if c.len() > 0 && c.last() == CARRIAGE_RETURN {
            c.drop_last()
        } else {
            c
        }
    } else {
        b
    }
}

/// `buf` after the line at `pos` has been read onto it.
pub open spec fn line_onto(s: Seq<u8>, pos: int, buf: Seq<u8>) -> Seq<u8> {
    let n = line_len(s, pos);
    if n == 0 {
        buf
    } else {
        strip_newline(buf + s.subrange(pos, pos + n))
    }
}

/// The outcome of reading a record at some position.
pub enum RecordParse {
    /// No bytes are left.
    Eof,
    /// The record is malformed.
    Failed(FastqError),
    /// Name, sequence, description, quality scores, and where the next record starts.
    Parsed(Seq<u8>, Seq<u8>, Seq<u8>, Seq<u8>, int),
}

/// The record that starts at `pos` of `s`.
pub open spec fn parse_record(s: Seq<u8>, pos: int) -> RecordParse {
    if pos >= s.len() {
        RecordParse::Eof
    } else if s[pos] != NAME_PREFIX {
        RecordParse::Failed(FastqError::InvalidData)
    } else {
        let name_at = pos + 1;
        let sequence_at = name_at + line_len(s, name_at);
        let plus_at = sequence_at + line_len(s, sequence_at);
        if plus_at >= s.len() {
            RecordParse::Failed(FastqError::UnexpectedEof)
        } else if s[plus_at] != DESCRIPTION_PREFIX {
            RecordParse::Failed(FastqError::InvalidData)
        } else {
            let description_at = plus_at + 1;
            let quality_at = description_at + line_len(s, description_at);
            RecordParse::Parsed(
                line_onto(s, name_at, Seq::empty()),
                line_onto(s, sequence_at, Seq::empty()),
                line_onto(s, description_at, Seq::empty()),
                line_onto(s, quality_at, Seq::empty()),
                quality_at + line_len(s, quality_at),
            )
        }
    }
}

/// A record's four fields.
pub open spec fn record_fields(r: Record) -> (Seq<u8>, Seq<u8>, Seq<u8>, Seq<u8>) {
    (r.name@, r.sequence@, r.description@, r.quality_scores@)
}

/// The fields of every record from `pos` to the end of `s`, or `None` where
/// one of them is malformed.
pub open spec fn parse_all(s: Seq<u8>, pos: int) -> Option<
    Seq<(Seq<u8>, Seq<u8>, Seq<u8>, Seq<u8>)>,
>
    decreases s.len() - pos,
{
    match parse_record(s, pos) {
        RecordParse::Eof => Some(Seq::empty()),
        RecordParse::Failed(_) => None,
        RecordParse::Parsed(name, sequence, description, quality_scores, next) => {
            if pos < next <= s.len() {
                match parse_all(s, next) {
                    Some(rest) => Some(seq![(name, sequence, description, quality_scores)] + rest),
                    None => None,
                }
            } else {
                None
            }
        },
    }
}

proof fn lemma_line_len_bounds(s: Seq<u8>, pos: int)
    requires
        0 <= pos,
    ensures
        0 <= line_len(s, pos),
        pos + line_len(s, pos) <= s.len() || line_len(s, pos) == 0,
        pos < s.len() ==> line_len(s, pos) > 0,
    decreases s.len() - pos,
{
    if pos < s.len() && s[pos] != LINE_FEED {
        lemma_line_len_bounds(s, pos + 1);
    }
}

/// Reads one byte at `*pos`.
pub fn read_u8(src: &[u8], pos: &mut usize) -> (r: Result<u8, FastqError>)
    ensures
        *old(pos) < src@.len() ==> r == Ok::<u8, FastqError>(src@[*old(pos) as int]) && *final(pos)
            == *old(pos) + 1,
        *old(pos) >= src@.len() ==> r == Err::<u8, FastqError>(FastqError::UnexpectedEof)
            && *final(pos) == *old(pos),
{
    if *pos < src.len() {
        let b = src[*pos];
        *pos = *pos + 1;
        Ok(b)
    } else {
        Err(FastqError::UnexpectedEof)
    }
}

/// Reads a line at `*pos` onto the end of `buf`, dropping its line feed and
/// a carriage return before it, and returns how many bytes it took.
pub fn read_line(src: &[u8], pos: &mut usize, buf: &mut Vec<u8>) -> (n: usize)
    ensures
        n == line_len(src@, *old(pos) as int),
        *final(pos) == *old(pos) + n,
        final(buf)@ == line_onto(src@, *old(pos) as int, old(buf)@),
{
    let start = *pos;
    let len = src.len();
    if start >= len {
        return 0;
    }
    proof {
        lemma_line_len_bounds(src@, start as int);
    }
    let ghost b0 = buf@;
    let mut i: usize = start;
    let mut done = false;
    while i < len && !done
        invariant
            start <= i <= len,
            len == src@.len(),
            start < len,
            buf@ == b0 + src@.subrange(start as int, i as int),
            done ==> i > start && src@[i - 1] == LINE_FEED && line_len(src@, start as int) == i
                - start,
            !done ==> line_len(src@, start as int) == (i - start) + line_len(src@, i as int),
        decreases len - i,
    {
        let b = src[i];
        buf.push(b);
        i = i + 1;
        assert(buf@ =~= b0 + src@.subrange(start as int, i as int));
        if b == LINE_FEED {
            done = true;
        }
    }
    let n = i - start;
    if buf.len() > 0 && buf[buf.len() - 1] == LINE_FEED {
        buf.pop();
        if buf.len() > 0 && buf[buf.len() - 1] == CARRIAGE_RETURN {
            buf.pop();
        }
    }
    *pos = i;
    n
}

/// Reads a name line: `@` and the name. 0 where no bytes are left.
pub fn read_name(src: &[u8], pos: &mut usize, buf: &mut Vec<u8>) -> (r: Result<usize, FastqError>)
    ensures
        *old(pos) >= src@.len() ==> r == Ok::<usize, FastqError>(0) && *final(pos) == *old(pos)
            && final(buf)@ == old(buf)@,
        *old(pos) < src@.len() && src@[*old(pos) as int] != NAME_PREFIX ==> r == Err::<
            usize,
            FastqError,
        >(FastqError::InvalidData),
        *old(pos) < src@.len() && src@[*old(pos) as int] == NAME_PREFIX ==> {
            let n = line_len(src@, *old(pos) + 1);
            &&& r == Ok::<usize, FastqError>((n + 1) as usize)
            &&& *final(pos) == *old(pos) + 1 + n
            &&& final(buf)@ == line_onto(src@, *old(pos) + 1, old(buf)@)
        },
{
    match read_u8(src, pos) {
        Ok(b) => {
            if b == NAME_PREFIX {
                let n = read_line(src, pos, buf);
                proof {
                    lemma_line_len_bounds(src@, *old(pos) + 1);
                }
                Ok(n + 1)
            } else {
                Err(FastqError::InvalidData)
            }
        },
        Err(_) => Ok(0),
    }
}

/// Reads a description line: `+` and the description.
pub fn read_description(src: &[u8], pos: &mut usize, buf: &mut Vec<u8>) -> (r: Result<
    usize,
    FastqError,
>)
    ensures
        *old(pos) >= src@.len() ==> r == Err::<usize, FastqError>(FastqError::UnexpectedEof)
            && *final(pos) == *old(pos) && final(buf)@ == old(buf)@,
        *old(pos) < src@.len() && src@[*old(pos) as int] != DESCRIPTION_PREFIX ==> r == Err::<
            usize,
            FastqError,
        >(FastqError::InvalidData),
        *old(pos) < src@.len() && src@[*old(pos) as int] == DESCRIPTION_PREFIX ==> {
            let n = line_len(src@, *old(pos) + 1);
            &&& r == Ok::<usize, FastqError>((n + 1) as usize)
            &&& *final(pos) == *old(pos) + 1 + n
            &&& final(buf)@ == line_onto(src@, *old(pos) + 1, old(buf)@)
        },
{
    let b = match read_u8(src, pos) {
        Ok(b) => b,
        Err(e) => return Err(e),
    };
    if b == DESCRIPTION_PREFIX {
        let n = read_line(src, pos, buf);
        proof {
            lemma_line_len_bounds(src@, *old(pos) + 1);
        }
        Ok(n + 1)
    } else {
        Err(FastqError::InvalidData)
    }
}

/// Reads the record at `*pos` into `record`, which is cleared first, and
/// returns how many bytes it took; 0 where no bytes are left.
pub fn read_record(src: &[u8], pos: &mut usize, record: &mut Record) -> (r: Result<
    usize,
    FastqError,
>)
    ensures
        match parse_record(src@, *old(pos) as int) {
            RecordParse::Eof => {
                &&& r == Ok::<usize, FastqError>(0)
                &&& *final(pos) == *old(pos)
                &&& final(record).name@.len() == 0
                &&& final(record).sequence@.len() == 0
                &&& final(record).description@.len() == 0
                &&& final(record).quality_scores@.len() == 0
            },
            RecordParse::Failed(e) => r == Err::<usize, FastqError>(e),
            RecordParse::Parsed(name, sequence, description, quality_scores, next) => {
                &&& r == Ok::<usize, FastqError>((next - *old(pos)) as usize)
                &&& *old(pos) < next <= src@.len()
                &&& *final(pos) == next
                &&& final(record).name@ == name
                &&& final(record).sequence@ == sequence
                &&& final(record).description@ == description
                &&& final(record).quality_scores@ == quality_scores
            },
        },
{
    record.clear();
    let start = *pos;
    proof {
        lemma_parse_record_next(src@, start as int);
        lemma_line_len_bounds(src@, start + 1);
    }
    match read_name(src, pos, &mut record.name) {
        Ok(0) => return Ok(0),
        Ok(_) => {},
        Err(e) => return Err(e),
    }
    let ghost sequence_at = *pos as int;
    proof {
        lemma_line_len_bounds(src@, sequence_at);
    }
    read_line(src, pos, &mut record.sequence);
    let ghost plus_at = *pos as int;
    match read_description(src, pos, &mut record.description) {
        Ok(_) => {},
        Err(e) => return Err(e),
    }
    let ghost quality_at = *pos as int;
    proof {
        lemma_line_len_bounds(src@, plus_at + 1);
        lemma_line_len_bounds(src@, quality_at);
    }
    read_line(src, pos, &mut record.quality_scores);
    Ok(*pos - start)
}

proof fn lemma_parse_record_next(s: Seq<u8>, pos: int)
    requires
        0 <= pos,
    ensures
        parse_record(s, pos) matches RecordParse::Parsed(_, _, _, _, next) ==> pos < next <= s.len(),
{
    if pos < s.len() && s[pos] == NAME_PREFIX {
        let name_at = pos + 1;
        lemma_line_len_bounds(s, name_at);
        let sequence_at = name_at + line_len(s, name_at);
        lemma_line_len_bounds(s, sequence_at);
        let plus_at = sequence_at + line_len(s, sequence_at);
        if plus_at < s.len() {
            let description_at = plus_at + 1;
            lemma_line_len_bounds(s, description_at);
            let quality_at = description_at + line_len(s, description_at);
            lemma_line_len_bounds(s, quality_at);
        }
    }
}

/// A FASTQ reader over bytes held in memory.
pub struct Reader {
    inner: Vec<u8>,
    position: usize,
}

impl Reader {
    pub closed spec fn source(&self) -> Seq<u8> {
        self.inner@
    }

    pub closed spec fn pos(&self) -> int {
        self.position as int
    }

    /// A reader at the start of `inner`.
    pub fn new(inner: Vec<u8>) -> (r: Reader)
        ensures
            r.source() == inner@,
            r.pos() == 0,
    {
        Reader { inner, position: 0 }
    }

    /// The underlying bytes.
    pub fn get_ref(&self) -> (r: &Vec<u8>)
        ensures
            r@ == self.source(),
    {
        &self.inner
    }

    /// The underlying bytes, for change.
    pub fn get_mut(&mut self) -> (r: &mut Vec<u8>)
        ensures
            r@ == old(self).source(),
            final(self).source() == final(r)@,
            final(self).pos() == old(self).pos(),
    {
        &mut self.inner
    }

    /// The underlying bytes, taking the reader apart.
    pub fn into_inner(self) -> (r: Vec<u8>)
        ensures
            r@ == self.source(),
    {
        self.inner
    }

    /// Reads the next record into `record`; see `read_record`.
    pub fn read_record(&mut self, record: &mut Record) -> (r: Result<usize, FastqError>)
        ensures
            final(self).source() == old(self).source(),
            match parse_record(old(self).source(), old(self).pos()) {
                RecordParse::Eof => {
                    &&& r == Ok::<usize, FastqError>(0)
                    &&& final(self).pos() == old(self).pos()
                    &&& final(record).name@.len() == 0
                    &&& final(record).sequence@.len() == 0
                    &&& final(record).description@.len() == 0
                    &&& final(record).quality_scores@.len() == 0
                },
                RecordParse::Failed(e) => r == Err::<usize, FastqError>(e),
                RecordParse::Parsed(name, sequence, description, quality_scores, next) => {
                    &&& r == Ok::<usize, FastqError>((next - old(self).pos()) as usize)
                    &&& old(self).pos() < next <= old(self).source().len()
                    &&& final(self).pos() == next
                    &&& final(record).name@ == name
                    &&& final(record).sequence@ == sequence
                    &&& final(record).description@ == description
                    &&& final(record).quality_scores@ == quality_scores
                },
            },
    {
        read_record(self.inner.as_slice(), &mut self.position, record)
    }

    /// Reads every record from the current position to the end; an error
    /// where one of them is malformed.
    pub fn records(&mut self) -> (r: Result<Vec<Record>, FastqError>)
        ensures
            final(self).source() == old(self).source(),
            r is Ok <==> parse_all(old(self).source(), old(self).pos()) is Some,
            r matches Ok(v) ==> parse_all(old(self).source(), old(self).pos()) == Some(
                v@.map_values(|x: Record| record_fields(x)),
            ),
            r matches Err(e) ==> exists|p: int|
                #[trigger] parse_record(old(self).source(), p) == RecordParse::Failed(e),
    {
        let mut out: Vec<Record> = Vec::new();
        loop
            invariant
                self.source() == old(self).source(),
                self.pos() <= self.source().len() || self.pos() == old(self).pos(),
                (parse_all(self.source(), self.pos()) is Some) == (parse_all(
                    old(self).source(),
                    old(self).pos(),
                ) is Some),
                parse_all(self.source(), self.pos()) matches Some(rest) ==> parse_all(
                    old(self).source(),
                    old(self).pos(),
                ) == Some(out@.map_values(|x: Record| record_fields(x)) + rest),
            decreases self.source().len() - self.pos(),
        {
            let ghost before = self.pos();
            let ghost done = out@.map_values(|x: Record| record_fields(x));
            let mut record = Record::default();
            match self.read_record(&mut record) {
                Ok(0) => {
                    proof {
                        assert(done + Seq::empty() =~= done);
                    }
                    return Ok(out);
                },
                Ok(_) => {
                    let ghost f = record_fields(record);
                    out.push(record);
                    proof {
                        assert(out@.map_values(|x: Record| record_fields(x)) =~= done.push(f));
                        match parse_all(self.source(), self.pos()) {
                            Some(rest) => {
                                assert(done + (seq![f] + rest) =~= done.push(f) + rest);
                            },
                            None => {},
                        }
                    }
                },
                Err(e) => {
                    return Err(e);
                },
            }
            proof {
                assert(self.pos() > before);
            }
        }
    }
}

} // verus!
