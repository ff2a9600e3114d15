use vstd::prelude::*;

verus! {

/// What can go wrong while reading raw CIGAR operations.
#[derive(Clone, Copy, Debug, PartialEq, Eq, Structural)]
pub enum CigarError {
    /// The low four bits name no operation kind.
    InvalidKind,
    /// A summed length does not fit in 32 bits.
    Overflow,
}

/// The kind of a CIGAR operation.
#[derive(Clone, Copy, Debug, PartialEq, Eq, Hash, Structural)]
pub enum Kind {
    /// Alignment match (`M`).
    Match,
    /// Insertion to the reference (`I`).
    Insertion,
    /// Deletion from the reference (`D`).
    Deletion,
    /// Skipped region of the reference (`N`).
    Skip,
    /// Soft clip (`S`).
    SoftClip,
    /// Hard clip (`H`).
    HardClip,
    /// Padding (`P`).
    Pad,
    /// Sequence match (`=`).
    SeqMatch,
    /// Sequence mismatch (`X`).
    SeqMismatch,
}

/// The kind that a raw code names; codes above 8 name none.
pub open spec fn kind_of_code(code: int) -> Option<Kind> {
    if code == 0 {
        Some(Kind::Match)
    } else if code == 1 {
        Some(Kind::Insertion)
    } else if code == 2 {
        Some(Kind::Deletion)
    } else if code == 3 {
        Some(Kind::Skip)
    } else if code == 4 {
        Some(Kind::SoftClip)
    } else if code == 5 {
        Some(Kind::HardClip)
    } else if code == 6 {
        Some(Kind::Pad)
    } else if code == 7 {
        Some(Kind::SeqMatch)
    } else if code == 8 {
        Some(Kind::SeqMismatch)
    } else {
        None
    }
}

impl Kind {
    /// Whether an operation of this kind covers reference bases.
    pub open spec fn consumes_reference(self) -> bool {
        match self {
            Kind::Match | Kind::Deletion | Kind::Skip | Kind::SeqMatch | Kind::SeqMismatch => true,
            _ => false,
        }
    }

    /// Whether an operation of this kind covers read bases.
    pub open spec fn consumes_read(self) -> bool {
        match self {
            Kind::Match | Kind::Insertion | Kind::SoftClip | Kind::SeqMatch
            | Kind::SeqMismatch => true,
            _ => false,
        }
    }
}

/// A CIGAR operation: a kind and a length.
#[derive(Clone, Copy, Debug, PartialEq, Eq, Structural)]
pub struct Op {
    pub kind: Kind,
    pub len: u32,
}

/// The operation a raw value encodes: its length in the upper 28 bits, its
/// kind in the lower four.
pub open spec fn op_of_raw(raw: u32) -> Option<Op> {
    match kind_of_code(raw as int % 16) {
        Some(k) => Some(Op { kind: k, len: (raw / 16) as u32 }),
        None => None,
    }
}

/// A raw value decoded, or the error for a code that names no kind.
pub open spec fn decoded(raw: u32) -> Result<Op, CigarError> {
    match op_of_raw(raw) {
        Some(op) => Ok(op),
        None => Err(CigarError::InvalidKind),
    }
}

impl Op {
    /// An operation of `kind` over `len` bases.
    pub fn new(kind: Kind, len: u32) -> (r: Op)
        ensures
            r.kind == kind,
            r.len == len,
    {
        Op { kind, len }
    }

    pub fn kind(&self) -> (r: Kind)
        ensures
            r == self.kind,
    {
        self.kind
    }

    pub fn len(&self) -> (r: u32)
        ensures
            r == self.len,
    {
        self.len
    }

    /// Decodes a raw operation.
    pub fn from_raw(raw: u32) -> (r: Result<Op, CigarError>)
        ensures
            r == decoded(raw),
    {
        let len = raw / 16;
        let kind = match raw % 16 {
            0 => Kind::Match,
            1 => Kind::Insertion,
            2 => Kind::Deletion,
            3 => Kind::Skip,
            4 => Kind::SoftClip,
            5 => Kind::HardClip,
            6 => Kind::Pad,
            7 => Kind::SeqMatch,
            8 => Kind::SeqMismatch,
            _ => return Err(CigarError::InvalidKind),
        };
        Ok(Op { kind, len })
    }
}

/// Whether every raw value encodes an operation.
pub open spec fn all_valid(ops: Seq<u32>) -> bool {
    forall|i: int| 0 <= i < ops.len() ==> (#[trigger] op_of_raw(ops[i])) is Some
}

/// The summed length of the operations of `ops` whose kind `counts`.
pub open spec fn span(ops: Seq<u32>, reference: bool) -> int
    decreases ops.len(),
{
    if ops.len() == 0 {
        0
    } else {
        let last = op_of_raw(ops.last());
        let add = match last {
            Some(op) => if (reference && op.kind.consumes_reference()) || (!reference
                && op.kind.consumes_read()) {
                op.len as int
            } else {
                0
            },
            None => 0,
        };
        span(ops.drop_last(), reference) + add
    }
}

/// Raw BAM CIGAR data: one 32-bit value per operation.
#[derive(Clone, Debug, PartialEq, Eq)]
pub struct Cigar(Vec<u32>);

impl Cigar {
    pub closed spec fn view(&self) -> Seq<u32> {
        self.0@
    }

    /// Wraps raw CIGAR data.
    pub fn new(cigar: Vec<u32>) -> (r: Cigar)
        ensures
            r.view() == cigar@,
    {
        Cigar(cigar)
    }

    /// The raw values.
    pub fn as_slice(&self) -> (r: &[u32])
        ensures
            r@ == self.view(),
    {
        self.0.as_slice()
    }

    /// Each raw value decoded, in order.
    pub fn ops(&self) -> (r: Vec<Result<Op, CigarError>>)
        ensures
            r@.len() == self.view().len(),
            forall|i: int| 0 <= i < r@.len() ==> #[trigger] r@[i] == decoded(self.view()[i]),
    {
        let mut out: Vec<Result<Op, CigarError>> = Vec::new();
        let mut i: usize = 0;
        while i < self.0.len()
            invariant
                i <= self.0@.len(),
                out@.len() == i,
                forall|j: int| 0 <= j < i ==> #[trigger] out@[j] == decoded(self.0@[j]),
            decreases self.0@.len() - i,
        {
            out.push(Op::from_raw(self.0[i]));
            i = i + 1;
        }
        out
    }

    fn sum_lengths(&self, reference: bool) -> (r: Result<u32, CigarError>)
        ensures
            !all_valid(self.view()) ==> r == Err::<u32, CigarError>(CigarError::InvalidKind),
            all_valid(self.view()) && span(self.view(), reference) <= u32::MAX ==> r == Ok::<
                u32,
                CigarError,
            >(span(self.view(), reference) as u32),
            all_valid(self.view()) && span(self.view(), reference) > u32::MAX ==> r == Err::<
                u32,
                CigarError,
            >(CigarError::Overflow),
    {
        let mut i: usize = 0;
        while i < self.0.len()
            invariant
                i <= self.0@.len(),
                forall|j: int| 0 <= j < i ==> (#[trigger] op_of_raw(self.0@[j])) is Some,
            decreases self.0@.len() - i,
        {
            if Op::from_raw(self.0[i]).is_err() {
                return Err(CigarError::InvalidKind);
            }
            i = i + 1;
        }
        let mut len: u32 = 0;
        let mut i: usize = 0;
        while i < self.0.len()
            invariant
                i <= self.0@.len(),
                all_valid(self.0@),
                len == span(self.0@.subrange(0, i as int), reference),
            decreases self.0@.len() - i,
        {
            let ghost pre = self.0@.subrange(0, i as int);
            let op = match Op::from_raw(self.0[i]) {
                Ok(op) => op,
                Err(e) => return Err(e),
            };
            let counts = if reference {
                match op.kind() {
                    Kind::Match | Kind::Deletion | Kind::Skip | Kind::SeqMatch
                    | Kind::SeqMismatch => true,
                    _ => false,
                }
            } else {
                match op.kind() {
                    Kind::Match | Kind::Insertion | Kind::SoftClip | Kind::SeqMatch
                    | Kind::SeqMismatch => true,
                    _ => false,
                }
            };
            proof {
                assert(self.0@.subrange(0, i + 1).drop_last() =~= pre);
                lemma_span_prefix_grows(self.0@, i + 1, reference);
            }
            if counts {
                if len > u32::MAX - op.len() {
                    return Err(CigarError::Overflow);
                }
                len = len + op.len();
            }
            i = i + 1;
        }
        proof {
            assert(self.0@.subrange(0, self.0@.len() as int) =~= self.0@);
        }
        Ok(len)
    }

    /// The alignment span over the reference: the summed lengths of the
    /// match, deletion, skip, sequence-match and sequence-mismatch operations.
    pub fn reference_len(&self) -> (r: Result<u32, CigarError>)
        ensures
            !all_valid(self.view()) ==> r == Err::<u32, CigarError>(CigarError::InvalidKind),
            all_valid(self.view()) && span(self.view(), true) <= u32::MAX ==> r == Ok::<
                u32,
                CigarError,
            >(span(self.view(), true) as u32),
            all_valid(self.view()) && span(self.view(), true) > u32::MAX ==> r == Err::<
                u32,
                CigarError,
            >(CigarError::Overflow),
    {
        self.sum_lengths(true)
    }

    /// The read length: the summed lengths of the match, insertion, soft
    /// clip, sequence-match and sequence-mismatch operations.
    pub fn read_len(&self) -> (r: Result<u32, CigarError>)
        ensures
            !all_valid(self.view()) ==> r == Err::<u32, CigarError>(CigarError::InvalidKind),
            all_valid(self.view()) && span(self.view(), false) <= u32::MAX ==> r == Ok::<
                u32,
                CigarError,
            >(span(self.view(), false) as u32),
            all_valid(self.view()) && span(self.view(), false) > u32::MAX ==> r == Err::<
                u32,
                CigarError,
            >(CigarError::Overflow),
    {
        self.sum_lengths(false)
    }
}

/// The span of a prefix never exceeds the span of a longer prefix.
proof fn lemma_span_prefix_grows(ops: Seq<u32>, k: int, reference: bool)
    requires
        0 <= k <= ops.len(),
    ensures
        span(ops.subrange(0, k), reference) <= span(ops, reference),
        0 <= span(ops.subrange(0, k), reference),
    decreases ops.len(),
{
    if k == ops.len() {
        assert(ops.subrange(0, k) =~= ops);
        lemma_span_nonneg(ops, reference);
    } else {
        assert(ops.subrange(0, k) =~= ops.drop_last().subrange(0, k));
        lemma_span_prefix_grows(ops.drop_last(), k, reference);
    }
}

proof fn lemma_span_nonneg(ops: Seq<u32>, reference: bool)
    ensures
        0 <= span(ops, reference),
    decreases ops.len(),
{
    if ops.len() > 0 {
        lemma_span_nonneg(ops.drop_last(), reference);
    }
}

} // verus!
