use vstd::prelude::*;
use vstd::string::StringSliceAdditionalSpecFns;

verus! {

/// One CIGAR edit operation with its run length.
#[derive(Clone, Copy, Debug, PartialEq, Eq, Structural)]
pub enum CigarOp {
    Match(u32),
    Equal(u32),
    Diff(u32),
    Ins(u32),
    Del(u32),
    RefSkip(u32),
    SoftClip(u32),
    HardClip(u32),
    Pad(u32),
}

/// Why a CIGAR text could not be read.
#[derive(Clone, Copy, Debug, PartialEq, Eq, Structural)]
pub enum CigarParseError {
    /// A byte that is neither a digit nor an operation letter.
    InvalidOperator(u8),
    /// The text ends with a length that no operation letter follows.
    TrailingDigits,
    /// A run length that does not fit in 32 bits.
    LengthOverflow,
}

impl CigarOp {
    pub open spec fn spec_len(self) -> nat {
        match self {
            CigarOp::Match(n) => n as nat,
            CigarOp::Equal(n) => n as nat,
            CigarOp::Diff(n) => n as nat,
            CigarOp::Ins(n) => n as nat,
            CigarOp::Del(n) => n as nat,
            CigarOp::RefSkip(n) => n as nat,
            CigarOp::SoftClip(n) => n as nat,
            CigarOp::HardClip(n) => n as nat,
            CigarOp::Pad(n) => n as nat,
        }
    }

    /// The run length of the operation.
    pub fn len(&self) -> (r: u32)
        ensures
            r == self.spec_len(),
    {
        match *self {
            CigarOp::Match(n) => n,
            CigarOp::Equal(n) => n,
            CigarOp::Diff(n) => n,
            CigarOp::Ins(n) => n,
            CigarOp::Del(n) => n,
            CigarOp::RefSkip(n) => n,
            CigarOp::SoftClip(n) => n,
            CigarOp::HardClip(n) => n,
            CigarOp::Pad(n) => n,
        }
    }

    /// Does the operation advance the query cursor?
    pub open spec fn consumes_query(self) -> bool {
        self is Match || self is Equal || self is Diff || self is Ins || self is SoftClip
    }

    /// Does the operation advance the reference cursor?
    pub open spec fn consumes_ref(self) -> bool {
        self is Match || self is Equal || self is Diff || self is Del || self is RefSkip
    }

    /// Query bases that the operation consumes.
    pub open spec fn qlen(self) -> nat {
        if self.consumes_query() {
            self.spec_len()
        } else {
            0
        }
    }

    /// Query bases that the operation aligns (clips excluded).
    pub open spec fn aligned_qlen(self) -> nat {
        if self is Match || self is Equal || self is Diff || self is Ins {
            self.spec_len()
        } else {
            0
        }
    }

    /// Reference bases that the operation consumes.
    pub open spec fn rlen(self) -> nat {
        if self.consumes_ref() {
            self.spec_len()
        } else {
            0
        }
    }

    /// Contribution to the numerator of identity.
    pub open spec fn eq_len(self) -> nat {
        if self is Equal {
            self.spec_len()
        } else {
            0
        }
    }

    /// Contribution to the denominator of identity.
    pub open spec fn span_len(self) -> nat {
        if self is Equal || self is Diff || self is Ins || self is Del {
            self.spec_len()
        } else {
            0
        }
    }

    /// The letter of the operation in CIGAR text.
    pub open spec fn code(self) -> u8 {
        match self {
            CigarOp::Match(_) => 77u8,
            CigarOp::Equal(_) => 61u8,
            CigarOp::Diff(_) => 88u8,
            CigarOp::Ins(_) => 73u8,
            CigarOp::Del(_) => 68u8,
            CigarOp::RefSkip(_) => 78u8,
            CigarOp::SoftClip(_) => 83u8,
            CigarOp::HardClip(_) => 72u8,
            CigarOp::Pad(_) => 80u8,
        }
    }

    /// The letter of the operation in CIGAR text.
    pub fn code_byte(&self) -> (r: u8)
        ensures
            r == self.code(),
    {
        match *self {
            CigarOp::Match(_) => 77u8,
            CigarOp::Equal(_) => 61u8,
            CigarOp::Diff(_) => 88u8,
            CigarOp::Ins(_) => 73u8,
            CigarOp::Del(_) => 68u8,
            CigarOp::RefSkip(_) => 78u8,
            CigarOp::SoftClip(_) => 83u8,
            CigarOp::HardClip(_) => 72u8,
            CigarOp::Pad(_) => 80u8,
        }
    }
}

/// The operation that a letter names, with run length `n`.
pub open spec fn op_from_code(c: u8, n: u32) -> Option<CigarOp> {
    if c == 77u8 {
        Some(CigarOp::Match(n))
    } else if c == 61u8 {
        Some(CigarOp::Equal(n))
    } else if c == 88u8 {
        Some(CigarOp::Diff(n))
    } else if c == 73u8 {
        Some(CigarOp::Ins(n))
    } else if c == 68u8 {
        Some(CigarOp::Del(n))
    } else if c == 78u8 {
        Some(CigarOp::RefSkip(n))
    } else if c == 83u8 {
        Some(CigarOp::SoftClip(n))
    } else if c == 72u8 {
        Some(CigarOp::HardClip(n))
    } else if c == 80u8 {
        Some(CigarOp::Pad(n))
    } else {
        None
    }
}

pub open spec fn is_digit(c: u8) -> bool {
    48 <= c <= 57
}

/// Reading CIGAR text `s`, with `len` the length read so far (`pending`
/// when at least one digit of it was seen) and `ops` the operations read.
pub open spec fn parse_from(s: Seq<u8>, len: int, pending: bool, ops: Seq<CigarOp>) -> Result<
    Seq<CigarOp>,
    CigarParseError,
>
    decreases s.len(),
{
    if s.len() == 0 {
        if pending {
            Err(CigarParseError::TrailingDigits)
        } else {
            Ok(ops)
        }
    } else {
        let c = s[0];
        if is_digit(c) {
            let nl = len * 10 + (c - 48);
            if nl > u32::MAX {
                Err(CigarParseError::LengthOverflow)
            } else {
                parse_from(s.drop_first(), nl, true, ops)
            }
        } else {
            match op_from_code(c, len as u32) {
                Some(op) => parse_from(s.drop_first(), 0, false, ops.push(op)),
                None => Err(CigarParseError::InvalidOperator(c)),
            }
        }
    }
}

/// The operations that CIGAR text `s` spells, or why it spells none.
pub open spec fn parse_cigar_spec(s: Seq<u8>) -> Result<Seq<CigarOp>, CigarParseError> {
    parse_from(s, 0, false, seq![])
}

/// Decimal digits of `n`, most significant first.
pub open spec fn decimal(n: nat) -> Seq<u8>
    decreases n,
{
    if n < 10 {
        seq![(48 + n) as u8]
    } else {
        decimal(n / 10).push((48 + n % 10) as u8)
    }
}

/// CIGAR text of one operation.
pub open spec fn op_text(op: CigarOp) -> Seq<u8> {
    decimal(op.spec_len()).push(op.code())
}

/// CIGAR text of a list of operations.
pub open spec fn cigar_text(ops: Seq<CigarOp>) -> Seq<u8>
    decreases ops.len(),
{
    if ops.len() == 0 {
        seq![]
    } else {
        cigar_text(ops.drop_last()) + op_text(ops.last())
    }
}

pub open spec fn sum_qlen(ops: Seq<CigarOp>) -> nat
    decreases ops.len(),
{
    if ops.len() == 0 {
        0
    } else {
        sum_qlen(ops.drop_last()) + ops.last().qlen()
    }
}

pub open spec fn sum_aligned_qlen(ops: Seq<CigarOp>) -> nat
    decreases ops.len(),
{
    if ops.len() == 0 {
        0
    } else {
        sum_aligned_qlen(ops.drop_last()) + ops.last().aligned_qlen()
    }
}

pub open spec fn sum_rlen(ops: Seq<CigarOp>) -> nat
    decreases ops.len(),
{
    if ops.len() == 0 {
        0
    } else {
        sum_rlen(ops.drop_last()) + ops.last().rlen()
    }
}

pub open spec fn sum_eq_len(ops: Seq<CigarOp>) -> nat
    decreases ops.len(),
{
    if ops.len() == 0 {
        0
    } else {
        sum_eq_len(ops.drop_last()) + ops.last().eq_len()
    }
}

pub open spec fn sum_span_len(ops: Seq<CigarOp>) -> nat
    decreases ops.len(),
{
    if ops.len() == 0 {
        0
    } else {
        sum_span_len(ops.drop_last()) + ops.last().span_len()
    }
}

/// Where the aligned part of the query starts: after a leading soft clip.
pub open spec fn qstart_spec(ops: Seq<CigarOp>) -> nat {
    if ops.len() > 0 && ops[0] is SoftClip {
        ops[0].spec_len()
    } else {
        0
    }
}

/// Where the aligned part of the query ends.
pub open spec fn qend_spec(ops: Seq<CigarOp>) -> nat {
    qstart_spec(ops) + sum_aligned_qlen(ops)
}

pub proof fn lemma_sum_qlen_bounds(ops: Seq<CigarOp>)
    ensures
        sum_aligned_qlen(ops) <= sum_qlen(ops),
        qend_spec(ops) <= sum_qlen(ops),
    decreases ops.len(),
{
    if ops.len() > 0 {
        lemma_sum_qlen_bounds(ops.drop_last());
        if ops.len() > 1 && ops[0] is SoftClip {
            lemma_soft_clip_first(ops);
        }
    }
}

proof fn lemma_soft_clip_first(ops: Seq<CigarOp>)
    requires
        ops.len() > 0,
        ops[0] is SoftClip,
    ensures
        sum_aligned_qlen(ops) + ops[0].spec_len() <= sum_qlen(ops),
    decreases ops.len(),
{
    let d = ops.drop_last();
    if ops.len() > 1 {
        assert(d[0] == ops[0]);
        lemma_soft_clip_first(d);
    } else {
        assert(sum_aligned_qlen(d) == 0);
        assert(sum_qlen(d) == 0);
        assert(ops.last() == ops[0]);
    }
}

pub proof fn lemma_decimal_parse(n: nat, rest: Seq<u8>, ops: Seq<CigarOp>)
    requires
        n <= u32::MAX,
    ensures
        parse_from(decimal(n) + rest, 0, false, ops) == parse_from(rest, n as int, true, ops),
    decreases n,
{
    if n < 10 {
        let s = decimal(n) + rest;
        assert(s[0] == (48 + n) as u8);
        assert(s.drop_first() =~= rest);
    } else {
        let d = (48 + n % 10) as u8;
        let tail = seq![d] + rest;
        assert(decimal(n) + rest =~= decimal(n / 10) + tail);
        lemma_decimal_parse(n / 10, tail, ops);
        assert(tail.drop_first() =~= rest);
        assert((n / 10) * 10 + n % 10 == n);
    }
}

proof fn lemma_text_parse(ops: Seq<CigarOp>, rest: Seq<u8>, acc: Seq<CigarOp>)
    ensures
        parse_from(cigar_text(ops) + rest, 0, false, acc) == parse_from(rest, 0, false, acc + ops),
    decreases ops.len(),
{
    if ops.len() == 0 {
        assert(cigar_text(ops) + rest =~= rest);
        assert(acc + ops =~= acc);
    } else {
        let pre = ops.drop_last();
        let op = ops.last();
        let tail = op_text(op) + rest;
        assert(cigar_text(ops) + rest =~= cigar_text(pre) + tail);
        lemma_text_parse(pre, tail, acc);
        let after = seq![op.code()] + rest;
        assert(tail =~= decimal(op.spec_len()) + after);
        lemma_decimal_parse(op.spec_len(), after, acc + pre);
        assert(after.drop_first() =~= rest);
        assert(op_from_code(op.code(), op.spec_len() as u32) == Some(op));
        assert((acc + pre).push(op) =~= acc + ops);
    }
}

/// Reading the text that `cigar_to_bytes` writes gives the operations back.
pub proof fn lemma_cigar_text_round_trip(ops: Seq<CigarOp>)
    ensures
        parse_cigar_spec(cigar_text(ops)) == Ok::<Seq<CigarOp>, CigarParseError>(ops),
{
    lemma_text_parse(ops, seq![], seq![]);
    assert(cigar_text(ops) + seq![] =~= cigar_text(ops));
    assert(seq![] + ops =~= ops);
}

/// For every CIGAR text that reads, writing its operations out and reading
/// them again gives the same operations.
pub proof fn lemma_parse_write_parse(s: Seq<u8>)
    requires
        parse_cigar_spec(s) is Ok,
    ensures
        parse_cigar_spec(cigar_text(parse_cigar_spec(s)->Ok_0)) == parse_cigar_spec(s),
{
    lemma_cigar_text_round_trip(parse_cigar_spec(s)->Ok_0);
}

/// Reads CIGAR text: pairs of a decimal length and one of the letters
/// `M = X I D N S H P`.
pub fn parse_cigar_string(cigar: &str) -> (r: Result<Vec<CigarOp>, CigarParseError>)
    ensures
        r is Ok <==> parse_cigar_spec(cigar.spec_bytes()) is Ok,
        r is Ok ==> parse_cigar_spec(cigar.spec_bytes()) == Ok::<Seq<CigarOp>, CigarParseError>(
            r->Ok_0@,
        ),
        r is Err ==> parse_cigar_spec(cigar.spec_bytes()) == Err::<Seq<CigarOp>, CigarParseError>(
            r->Err_0,
        ),
{
    let bytes = cigar.as_bytes();
    let mut ops: Vec<CigarOp> = Vec::new();
    let mut length: u32 = 0;
    let mut pending = false;
    let mut i: usize = 0;
    proof {
        assert(bytes@.subrange(0, bytes@.len() as int) =~= bytes@);
        assert(ops@ =~= Seq::<CigarOp>::empty());
    }
    while i < bytes.len()
        invariant
            bytes@ == cigar.spec_bytes(),
            0 <= i <= bytes@.len(),
            parse_cigar_spec(bytes@) == parse_from(
                bytes@.subrange(i as int, bytes@.len() as int),
                length as int,
                pending,
                ops@,
            ),
        decreases bytes@.len() - i,
    {
        let c = bytes[i];
        proof {
            let s = bytes@.subrange(i as int, bytes@.len() as int);
            assert(s[0] == c);
            assert(s.drop_first() =~= bytes@.subrange(i as int + 1, bytes@.len() as int));
        }
        if 48u8 <= c && c <= 57u8 {
            let d = (c - 48u8) as u32;
            if length > 429496729 || (length == 429496729 && d > 5) {
                return Err(CigarParseError::LengthOverflow);
            }
            length = length * 10 + d;
            pending = true;
        } else {
            let op = if c == 77u8 {
                CigarOp::Match(length)
            } else if c == 61u8 {
                CigarOp::Equal(length)
            } else if c == 88u8 {
                CigarOp::Diff(length)
            } else if c == 73u8 {
                CigarOp::Ins(length)
            } else if c == 68u8 {
                CigarOp::Del(length)
            } else if c == 78u8 {
                CigarOp::RefSkip(length)
            } else if c == 83u8 {
                CigarOp::SoftClip(length)
            } else if c == 72u8 {
                CigarOp::HardClip(length)
            } else if c == 80u8 {
                CigarOp::Pad(length)
            } else {
                return Err(CigarParseError::InvalidOperator(c));
            };
            ops.push(op);
            length = 0;
            pending = false;
        }
        i = i + 1;
    }
    if pending {
        return Err(CigarParseError::TrailingDigits);
    }
    Ok(ops)
}

/// Appends the decimal digits of `n`.
pub fn push_decimal(out: &mut Vec<u8>, n: u64)
    ensures
        final(out)@ == old(out)@ + decimal(n as nat),
    decreases n,
{
    if n >= 10 {
        push_decimal(out, n / 10);
    }
    let ghost mid = out@;
    out.push(48u8 + (n % 10) as u8);
    proof {
        if n >= 10 {
            assert(old(out)@ + decimal(n as nat) =~= old(out)@ + decimal((n / 10) as nat) + seq![
                (48 + n % 10) as u8,
            ]);
        } else {
            assert(n % 10 == n);
        }
    }
}

/// Writes operations out as CIGAR text.
pub fn cigar_to_bytes(ops: &Vec<CigarOp>) -> (r: Vec<u8>)
    ensures
        r@ == cigar_text(ops@),
{
    let mut out: Vec<u8> = Vec::new();
    let mut i: usize = 0;
    while i < ops.len()
        invariant
            0 <= i <= ops@.len(),
            out@ == cigar_text(ops@.subrange(0, i as int)),
        decreases ops@.len() - i,
    {
        let op = ops[i];
        push_decimal(&mut out, op.len() as u64);
        out.push(op.code_byte());
        proof {
            let next = ops@.subrange(0, i as int + 1);
            assert(next.drop_last() =~= ops@.subrange(0, i as int));
            assert(next.last() == op);
        }
        i = i + 1;
    }
    proof {
        assert(ops@.subrange(0, ops@.len() as int) =~= ops@);
    }
    out
}

} // verus!
