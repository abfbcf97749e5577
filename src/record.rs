use vstd::prelude::*;
use crate::cigar::{
    lemma_sum_qlen_bounds, qend_spec, qstart_spec, sum_aligned_qlen, sum_qlen, sum_rlen, CigarOp,
};

verus! {

/// One column of an alignment: the query offset if the column holds a query
/// base, the reference position if it holds a reference base.
pub type AlignedPair = (Option<u64>, Option<u64>);

/// Columns that one operation spans, starting at query offset `q` and
/// reference position `r`.
pub open spec fn op_pairs(op: CigarOp, q: int, r: int) -> Seq<AlignedPair> {
    let n = op.spec_len() as int;
    if op is Match || op is Equal || op is Diff {
        Seq::new(n as nat, |k: int| (Some((q + k) as u64), Some((r + k) as u64)))
    } else if op is Ins || op is SoftClip {
        Seq::new(n as nat, |k: int| (Some((q + k) as u64), None::<u64>))
    } else if op is Del || op is RefSkip {
        Seq::new(n as nat, |k: int| (None::<u64>, Some((r + k) as u64)))
    } else {
        Seq::empty()
    }
}

/// Every column of an alignment that starts at reference position `pos`, in
/// order, soft clips included.
pub open spec fn aligned_pairs(ops: Seq<CigarOp>, pos: int) -> Seq<AlignedPair>
    decreases ops.len(),
{
    if ops.len() == 0 {
        Seq::empty()
    } else {
        let pre = ops.drop_last();
        aligned_pairs(pre, pos) + op_pairs(ops.last(), sum_qlen(pre) as int, pos + sum_rlen(pre))
    }
}

/// Why an alignment record was refused.
#[derive(Clone, Copy, Debug, PartialEq, Eq, Structural)]
pub enum RecordError {
    /// The reference position is negative, i.e. was never set.
    PositionNotSet,
    /// The sequence length differs from what the CIGAR consumes.
    SequenceLengthMismatch,
    /// Positions or lengths beyond what the format can hold.
    TooLong,
}

/// Largest reference position a record may start at.
pub const MAX_POS: i64 = 2147483647;

/// An alignment of one query sequence to the reference.
#[derive(Debug)]
pub struct AlignmentRecord {
    pos: u64,
    reverse: bool,
    seq: Vec<u8>,
    cigar: Vec<CigarOp>,
}

impl AlignmentRecord {
    pub closed spec fn spec_pos(&self) -> int {
        self.pos as int
    }

    pub closed spec fn spec_reverse(&self) -> bool {
        self.reverse
    }

    pub closed spec fn spec_seq(&self) -> Seq<u8> {
        self.seq@
    }

    pub closed spec fn spec_cigar(&self) -> Seq<CigarOp> {
        self.cigar@
    }

    /// The limits that every record keeps.
    pub open spec fn wf(&self) -> bool {
        &&& 0 <= self.spec_pos() <= MAX_POS
        &&& self.spec_cigar().len() <= u32::MAX
        &&& sum_qlen(self.spec_cigar()) <= u32::MAX
        &&& sum_rlen(self.spec_cigar()) <= u32::MAX
        &&& self.spec_seq().len() == sum_qlen(self.spec_cigar())
    }

    /// A record from its reference start, strand, query bases and CIGAR.
    pub fn new(pos: i64, reverse: bool, seq: Vec<u8>, cigar: Vec<CigarOp>) -> (r: Result<
        Self,
        RecordError,
    >)
        ensures
            r is Err ==> (r->Err_0 == RecordError::PositionNotSet <==> pos < 0),
            r is Err ==> (r->Err_0 == RecordError::TooLong <==> (pos >= 0 && (pos > MAX_POS
                || cigar@.len() > u32::MAX || sum_qlen(cigar@) > u32::MAX || sum_rlen(cigar@)
                > u32::MAX))),
            r is Ok <==> (0 <= pos <= MAX_POS && cigar@.len() <= u32::MAX && sum_qlen(cigar@)
                <= u32::MAX && sum_rlen(cigar@) <= u32::MAX && seq@.len() == sum_qlen(cigar@)),
            r is Ok ==> ({
                let rec = r->Ok_0;
                &&& rec.wf()
                &&& rec.spec_pos() == pos
                &&& rec.spec_reverse() == reverse
                &&& rec.spec_seq() == seq@
                &&& rec.spec_cigar() == cigar@
            }),
    {
        if pos < 0 {
            return Err(RecordError::PositionNotSet);
        }
        if pos > MAX_POS || cigar.len() > 4294967295 {
            return Err(RecordError::TooLong);
        }
        let mut ql: u64 = 0;
        let mut rl: u64 = 0;
        let mut i: usize = 0;
        while i < cigar.len()
            invariant
                0 <= i <= cigar@.len() <= u32::MAX,
                ql == sum_qlen(cigar@.subrange(0, i as int)),
                rl == sum_rlen(cigar@.subrange(0, i as int)),
                ql <= i * 4294967295,
                rl <= i * 4294967295,
            decreases cigar@.len() - i,
        {
            proof {
                assert(cigar@.subrange(0, i as int + 1).drop_last() =~= cigar@.subrange(0, i as int));
            }
            let op = cigar[i];
            if op.consumes_query_exec() {
                ql = ql + op.len() as u64;
            }
            if op.consumes_ref_exec() {
                rl = rl + op.len() as u64;
            }
            i = i + 1;
        }
        proof {
            assert(cigar@.subrange(0, cigar@.len() as int) =~= cigar@);
        }
        if ql > 4294967295 || rl > 4294967295 {
            return Err(RecordError::TooLong);
        }
        if seq.len() as u64 != ql {
            return Err(RecordError::SequenceLengthMismatch);
        }
        Ok(AlignmentRecord { pos: pos as u64, reverse, seq, cigar })
    }

    pub fn is_reverse(&self) -> (r: bool)
        ensures
            r == self.spec_reverse(),
    {
        self.reverse
    }

    pub fn seq(&self) -> (r: &Vec<u8>)
        ensures
            r@ == self.spec_seq(),
    {
        &self.seq
    }

    pub fn cigar(&self) -> (r: &Vec<CigarOp>)
        ensures
            r@ == self.spec_cigar(),
    {
        &self.cigar
    }

    /// Number of query bases.
    pub fn seq_len(&self) -> (r: usize)
        ensures
            r == self.spec_seq().len(),
    {
        self.seq.len()
    }

    /// First query offset of the aligned part: after a leading soft clip.
    pub fn query_alignment_start(&self) -> (r: u64)
        requires
            self.wf(),
        ensures
            r == qstart_spec(self.spec_cigar()),
    {
        if self.cigar.len() == 0 {
            return 0;
        }
        proof {
            lemma_sum_qlen_bounds(self.cigar@);
            if self.cigar@[0] is SoftClip {
                lemma_first_qlen(self.cigar@);
            }
        }
        match self.cigar[0] {
            CigarOp::SoftClip(n) => n as u64,
            _ => 0,
        }
    }

    /// End of the aligned part of the query: its start plus the `M = X I`
    /// bases.
    pub fn query_alignment_end(&self) -> (r: u64)
        requires
            self.wf(),
        ensures
            r == qend_spec(self.spec_cigar()),
    {
        let start = self.query_alignment_start();
        let mut qlen: u64 = 0;
        let mut i: usize = 0;
        proof {
            lemma_sum_qlen_bounds(self.cigar@);
        }
        while i < self.cigar.len()
            invariant
                self.wf(),
                0 <= i <= self.cigar@.len(),
                qlen == sum_aligned_qlen(self.cigar@.subrange(0, i as int)),
                qlen <= i * 4294967295,
            decreases self.cigar@.len() - i,
        {
            proof {
                assert(self.cigar@.subrange(0, i as int + 1).drop_last() =~= self.cigar@.subrange(0, i as int));
            }
            match self.cigar[i] {
                CigarOp::Match(n) | CigarOp::Diff(n) | CigarOp::Ins(n) | CigarOp::Equal(n) => {
                    qlen = qlen + n as u64;
                },
                _ => {},
            }
            i = i + 1;
        }
        proof {
            assert(self.cigar@.subrange(0, self.cigar@.len() as int) =~= self.cigar@);
        }
        start + qlen
    }

    /// Reference position of the first aligned base.
    pub fn reference_start(&self) -> (r: u64)
        requires
            self.wf(),
        ensures
            r == self.spec_pos(),
    {
        self.pos
    }

    /// One past the last reference position that the alignment covers.
    pub fn reference_end(&self) -> (r: u64)
        requires
            self.wf(),
        ensures
            r == self.spec_pos() + sum_rlen(self.spec_cigar()),
    {
        let mut rl: u64 = 0;
        let mut i: usize = 0;
        while i < self.cigar.len()
            invariant
                self.wf(),
                0 <= i <= self.cigar@.len(),
                rl == sum_rlen(self.cigar@.subrange(0, i as int)),
                rl <= i * 4294967295,
            decreases self.cigar@.len() - i,
        {
            proof {
                assert(self.cigar@.subrange(0, i as int + 1).drop_last() =~= self.cigar@.subrange(0, i as int));
            }
            let op = self.cigar[i];
            if op.consumes_ref_exec() {
                rl = rl + op.len() as u64;
            }
            i = i + 1;
        }
        proof {
            assert(self.cigar@.subrange(0, self.cigar@.len() as int) =~= self.cigar@);
        }
        self.pos + rl
    }

    /// Every column of the alignment in order: `(query offset, reference
    /// position)`, with `None` where the column has no base of that side.
    pub fn aligned_pairs_full(&self) -> (r: Vec<AlignedPair>)
        requires
            self.wf(),
        ensures
            r@ == aligned_pairs(self.spec_cigar(), self.spec_pos()),
    {
        let mut out: Vec<AlignedPair> = Vec::new();
        let mut q: u64 = 0;
        let mut rpos: u64 = self.pos;
        let mut i: usize = 0;
        while i < self.cigar.len()
            invariant
                self.wf(),
                0 <= i <= self.cigar@.len(),
                q == sum_qlen(self.cigar@.subrange(0, i as int)),
                rpos == self.pos + sum_rlen(self.cigar@.subrange(0, i as int)),
                out@ == aligned_pairs(self.cigar@.subrange(0, i as int), self.pos as int),
            decreases self.cigar@.len() - i,
        {
            let ghost pre = self.cigar@.subrange(0, i as int);
            proof {
                assert(self.cigar@.subrange(0, i as int + 1).drop_last() =~= pre);
                lemma_prefix_sums_le(self.cigar@, i as int + 1);
            }
            let op = self.cigar[i];
            let n = op.len();
            let kind: u8 = match op {
                CigarOp::Match(_) | CigarOp::Equal(_) | CigarOp::Diff(_) => 0,
                CigarOp::Ins(_) | CigarOp::SoftClip(_) => 1,
                CigarOp::Del(_) | CigarOp::RefSkip(_) => 2,
                _ => 3,
            };
            let ghost base = out@;
            let ghost expect = op_pairs(op, q as int, rpos as int);
            if kind != 3 {
                let mut k: u32 = 0;
                while k < n
                    invariant
                        0 <= k <= n,
                        n == op.spec_len(),
                        kind != 3,
                        kind == 0 <==> (op is Match || op is Equal || op is Diff),
                        kind == 1 <==> (op is Ins || op is SoftClip),
                        kind == 2 <==> (op is Del || op is RefSkip),
                        kind != 2 ==> q + n <= u32::MAX,
                        kind != 1 ==> rpos + n <= MAX_POS + u32::MAX,
                        expect == op_pairs(op, q as int, rpos as int),
                        expect.len() == n,
                        out@ == base + expect.subrange(0, k as int),
                    decreases n - k,
                {
                    let pair: AlignedPair = if kind == 0 {
                        (Some(q + k as u64), Some(rpos + k as u64))
                    } else if kind == 1 {
                        (Some(q + k as u64), None)
                    } else {
                        (None, Some(rpos + k as u64))
                    };
                    out.push(pair);
                    proof {
                        assert(expect[k as int] == pair);
                        assert(base + expect.subrange(0, k as int + 1) =~= (base + expect.subrange(0, k as int)).push(pair));
                    }
                    k = k + 1;
                }
                proof {
                    assert(expect.subrange(0, n as int) =~= expect);
                }
            } else {
                proof {
                    assert(base + expect =~= base);
                }
            }
            if op.consumes_query_exec() {
                q = q + n as u64;
            }
            if op.consumes_ref_exec() {
                rpos = rpos + n as u64;
            }
            i = i + 1;
        }
        proof {
            assert(self.cigar@.subrange(0, self.cigar@.len() as int) =~= self.cigar@);
        }
        out
    }
}

impl CigarOp {
    pub fn consumes_ref_exec(&self) -> (r: bool)
        ensures
            r == self.consumes_ref(),
    {
        match *self {
            CigarOp::Match(_) | CigarOp::Equal(_) | CigarOp::Diff(_) | CigarOp::Del(_)
            | CigarOp::RefSkip(_) => true,
            _ => false,
        }
    }
}

proof fn lemma_first_qlen(ops: Seq<CigarOp>)
    requires
        ops.len() > 0,
    ensures
        ops[0].qlen() <= sum_qlen(ops),
    decreases ops.len(),
{
    if ops.len() > 1 {
        assert(ops.drop_last()[0] == ops[0]);
        lemma_first_qlen(ops.drop_last());
    }
}

/// Prefix sums of query and reference lengths stay within the totals.
pub proof fn lemma_prefix_sums_le(ops: Seq<CigarOp>, i: int)
    requires
        0 <= i <= ops.len(),
    ensures
        sum_qlen(ops.subrange(0, i)) <= sum_qlen(ops),
        sum_rlen(ops.subrange(0, i)) <= sum_rlen(ops),
        sum_aligned_qlen(ops.subrange(0, i)) <= sum_aligned_qlen(ops),
    decreases ops.len() - i,
{
    if i < ops.len() {
        lemma_prefix_sums_le(ops, i + 1);
        assert(ops.subrange(0, i + 1).drop_last() =~= ops.subrange(0, i));
    } else {
        assert(ops.subrange(0, i) =~= ops);
    }
}

} // verus!
