use vstd::prelude::*;
use crate::cigar::{
    lemma_sum_qlen_bounds, qend_spec, qstart_spec, sum_aligned_qlen, sum_eq_len, sum_qlen,
    sum_span_len, CigarOp,
};

verus! {

/// Values never decrease along `v`.
pub open spec fn sorted(v: Seq<u32>) -> bool {
    forall|i: int, j: int| 0 <= i <= j < v.len() ==> v[i] <= v[j]
}

/// How many entries of `v` are at most `x`.
pub open spec fn count_le(v: Seq<u32>, x: int) -> nat
    decreases v.len(),
{
    if v.len() == 0 {
        0
    } else {
        count_le(v.drop_last(), x) + if v.last() <= x {
            1nat
        } else {
            0nat
        }
    }
}

/// How many entries of `v` are below `x`.
pub open spec fn count_lt(v: Seq<u32>, x: int) -> nat
    decreases v.len(),
{
    if v.len() == 0 {
        0
    } else {
        count_lt(v.drop_last(), x) + if v.last() < x {
            1nat
        } else {
            0nat
        }
    }
}

/// Query offset at which each operation starts.
pub open spec fn query_starts(ops: Seq<CigarOp>) -> Seq<u32> {
    Seq::new(ops.len(), |i: int| sum_qlen(ops.subrange(0, i)) as u32)
}

/// The operation holding range start `s`: the last one that begins at or
/// before `s`.
pub open spec fn start_op_index(ops: Seq<CigarOp>, s: int) -> int {
    count_le(query_starts(ops), s) - 1
}

/// The operation holding range end `e`: the first one that begins exactly at
/// `e` if there is one, else the last one that begins before `e`.
pub open spec fn end_op_index(ops: Seq<CigarOp>, e: int) -> int {
    let k = count_lt(query_starts(ops), e) as int;
    if k < ops.len() && query_starts(ops)[k] == e {
        k
    } else {
        k - 1
    }
}

/// `op` cut to length `n`; a soft clip at the end of a range counts as a
/// deletion.
pub open spec fn cut(op: CigarOp, n: int) -> CigarOp {
    match op {
        CigarOp::Diff(_) => CigarOp::Diff(n as u32),
        CigarOp::Ins(_) => CigarOp::Ins(n as u32),
        CigarOp::Equal(_) => CigarOp::Equal(n as u32),
        CigarOp::Del(_) => CigarOp::Del(n as u32),
        CigarOp::SoftClip(_) => CigarOp::Del(n as u32),
        _ => op,
    }
}

/// An operation that may be cut at the left edge of a range.
pub open spec fn cuttable_first(op: CigarOp) -> bool {
    op is Diff || op is Ins || op is Equal
}

/// An operation that may be cut at the right edge of a range.
pub open spec fn cuttable_last(op: CigarOp) -> bool {
    op is Diff || op is Ins || op is Equal || op is Del || op is SoftClip
}

/// An operation that may lie inside a range: anything but `M N H P`.
pub open spec fn inner_ok(op: CigarOp) -> bool {
    !(op is Match || op is RefSkip || op is HardClip || op is Pad)
}

/// Can the non-empty query range `[s, e)` be cut out of `ops`: its edge
/// operations can be cut there and no `M N H P` lies between them?
pub open spec fn range_cuttable(ops: Seq<CigarOp>, s: int, e: int) -> bool {
    let si = start_op_index(ops, s);
    let ei = end_op_index(ops, e);
    if si == ei {
        cuttable_first(ops[si])
    } else {
        &&& cuttable_first(ops[si])
        &&& cuttable_last(ops[ei])
        &&& forall|k: int| si < k < ei ==> inner_ok(#[trigger] ops[k])
    }
}

/// The operations that cover the non-empty query range `[s, e)`: the first
/// one cut to start at `s`, the last cut to end at `e`, those between whole.
pub open spec fn range_ops(ops: Seq<CigarOp>, s: int, e: int) -> Seq<CigarOp> {
    let starts = query_starts(ops);
    let si = start_op_index(ops, s);
    let ei = end_op_index(ops, e);
    if si == ei {
        seq![cut(ops[si], e - s)]
    } else {
        seq![cut(ops[si], ops[si].spec_len() - (s - starts[si]))] + ops.subrange(si + 1, ei)
            + seq![cut(ops[ei], e - starts[ei])]
    }
}

/// `x` brought into `[lo, hi]`, the low bound applied first.
pub open spec fn clamp_low_first(x: int, lo: int, hi: int) -> int {
    if x < lo {
        if lo > hi {
            hi
        } else {
            lo
        }
    } else if x > hi {
        hi
    } else {
        x
    }
}

/// `x` brought into `[lo, hi]`, the high bound applied first.
pub open spec fn clamp_high_first(x: int, lo: int, hi: int) -> int {
    if x > hi {
        if hi < lo {
            lo
        } else {
            hi
        }
    } else if x < lo {
        lo
    } else {
        x
    }
}

/// What `compute_range_identity(start, end)` gives for an alignment whose
/// aligned part is `[qs, qe)`.
pub open spec fn range_identity_spec(ops: Seq<CigarOp>, qs: int, qe: int, start: int, end: int) -> Option<RangeIdentity> {
    let s = clamp_low_first(start, qs, qe);
    let e = clamp_high_first(end, qs, qe);
    if s >= e {
        Some(RangeIdentity { start: s as u32, end: s as u32, eq_len: 0, span_len: 0 })
    } else if !range_cuttable(ops, s, e) {
        None
    } else {
        Some(
            RangeIdentity {
                start: s as u32,
                end: e as u32,
                eq_len: sum_eq_len(range_ops(ops, s, e)) as u64,
                span_len: sum_span_len(range_ops(ops, s, e)) as u64,
            },
        )
    }
}

/// Identity of a query range as a ratio: `eq_len / max(1, span_len)`.
#[derive(Clone, Copy, Debug, PartialEq, Eq, Structural)]
pub struct RangeIdentity {
    /// Start of the range after clamping to the aligned part.
    pub start: u32,
    /// End of the range after clamping to the aligned part.
    pub end: u32,
    /// Bases of `=` operations in the range.
    pub eq_len: u64,
    /// Bases of `= X I D` operations in the range.
    pub span_len: u64,
}

/// Answers identity questions about query ranges of one alignment.
#[derive(Debug)]
pub struct RangeIdentityCalculator {
    ops: Vec<CigarOp>,
    query_starts: Vec<u32>,
    qstart: u32,
    qend: u32,
}

impl RangeIdentityCalculator {
    /// The operations the calculator was built from.
    pub closed spec fn ops(&self) -> Seq<CigarOp> {
        self.ops@
    }

    pub closed spec fn wf(&self) -> bool {
        &&& self.ops@.len() > 0
        &&& self.ops@.len() <= u32::MAX
        &&& sum_qlen(self.ops@) <= u32::MAX
        &&& self.query_starts@ == query_starts(self.ops@)
        &&& sorted(self.query_starts@)
        &&& self.qstart == qstart_spec(self.ops@)
        &&& self.qend == qend_spec(self.ops@)
    }

    /// Start of the aligned part of the query.
    pub closed spec fn spec_qstart(&self) -> nat {
        self.qstart as nat
    }

    /// End of the aligned part of the query.
    pub closed spec fn spec_qend(&self) -> nat {
        self.qend as nat
    }

    /// Indexes the operations by their query start. An empty list has no
    /// identity to ask about.
    pub fn new(cigar: &Vec<CigarOp>) -> (r: Self)
        requires
            cigar@.len() > 0,
            cigar@.len() <= u32::MAX,
            sum_qlen(cigar@) <= u32::MAX,
        ensures
            r.wf(),
            r.ops() == cigar@,
            r.spec_qstart() == qstart_spec(cigar@),
            r.spec_qend() == qend_spec(cigar@),
    {
        let mut starts: Vec<u32> = Vec::new();
        let mut ops: Vec<CigarOp> = Vec::new();
        let mut cursor: u32 = 0;
        let mut i: usize = 0;
        while i < cigar.len()
            invariant
                0 <= i <= cigar@.len(),
                cigar@.len() <= u32::MAX,
                sum_qlen(cigar@) <= u32::MAX,
                starts@.len() == i,
                ops@ == cigar@.subrange(0, i as int),
                cursor == sum_qlen(cigar@.subrange(0, i as int)),
                forall|j: int|
                    0 <= j < i ==> starts@[j] == sum_qlen(cigar@.subrange(0, j)),
                sorted(starts@),
                forall|j: int| 0 <= j < i ==> starts@[j] <= cursor,
            decreases cigar@.len() - i,
        {
            proof {
                lemma_sum_qlen_prefix(cigar@, i as int + 1);
                let next = cigar@.subrange(0, i as int + 1);
                assert(next.drop_last() =~= cigar@.subrange(0, i as int));
            }
            starts.push(cursor);
            let op = cigar[i];
            ops.push(op);
            if op.consumes_query_exec() {
                cursor = cursor + op.len();
            }
            i = i + 1;
        }
        proof {
            assert(cigar@.subrange(0, cigar@.len() as int) =~= cigar@);
            assert(starts@ =~= query_starts(cigar@));
            lemma_sum_qlen_bounds(cigar@);
        }
        let (qstart, qend) = compute_qstart_qend_with_cigar(cigar);
        RangeIdentityCalculator { ops, query_starts: starts, qstart: qstart as u32, qend: qend as u32 }
    }
}

impl CigarOp {
    pub fn consumes_query_exec(&self) -> (r: bool)
        ensures
            r == self.consumes_query(),
    {
        match *self {
            CigarOp::Match(_) | CigarOp::Equal(_) | CigarOp::Diff(_) | CigarOp::Ins(_)
            | CigarOp::SoftClip(_) => true,
            _ => false,
        }
    }
}

pub proof fn lemma_sum_qlen_prefix(ops: Seq<CigarOp>, i: int)
    requires
        0 <= i <= ops.len(),
    ensures
        sum_qlen(ops.subrange(0, i)) <= sum_qlen(ops),
    decreases ops.len() - i,
{
    if i < ops.len() {
        lemma_sum_qlen_prefix(ops, i + 1);
        assert(ops.subrange(0, i + 1).drop_last() =~= ops.subrange(0, i));
    } else {
        assert(ops.subrange(0, i) =~= ops);
    }
}

/// Where the aligned part of the query starts and ends: after a leading soft
/// clip, and that many bases on plus the `M = X I` bases.
pub fn compute_qstart_qend_with_cigar(cigar: &Vec<CigarOp>) -> (r: (usize, usize))
    requires
        cigar@.len() > 0,
        sum_qlen(cigar@) <= u32::MAX,
    ensures
        r.0 == qstart_spec(cigar@),
        r.1 == qend_spec(cigar@),
{
    let qstart: usize = match cigar[0] {
        CigarOp::SoftClip(n) => n as usize,
        _ => 0,
    };
    let mut qlen: usize = 0;
    let mut i: usize = 0;
    proof {
        lemma_sum_qlen_bounds(cigar@);
    }
    while i < cigar.len()
        invariant
            0 <= i <= cigar@.len(),
            sum_qlen(cigar@) <= u32::MAX,
            qlen == sum_aligned_qlen(cigar@.subrange(0, i as int)),
            qstart == qstart_spec(cigar@),
        decreases cigar@.len() - i,
    {
        proof {
            lemma_sum_qlen_prefix(cigar@, i as int + 1);
            lemma_sum_qlen_bounds(cigar@.subrange(0, i as int + 1));
            let next = cigar@.subrange(0, i as int + 1);
            assert(next.drop_last() =~= cigar@.subrange(0, i as int));
        }
        match cigar[i] {
            CigarOp::Match(n) | CigarOp::Diff(n) | CigarOp::Ins(n) | CigarOp::Equal(n) => {
                qlen = qlen + n as usize;
            },
            _ => {},
        }
        i = i + 1;
    }
    proof {
        assert(cigar@.subrange(0, cigar@.len() as int) =~= cigar@);
    }
    (qstart, qstart + qlen)
}


/// How many entries of sorted `v` are at most `x`, by binary search.
fn count_le_sorted(v: &Vec<u32>, x: u32) -> (r: usize)
    requires
        sorted(v@),
    ensures
        r == count_le(v@, x as int),
        r <= v@.len(),
        forall|i: int| 0 <= i < r ==> v@[i] <= x,
        forall|i: int| r <= i < v@.len() ==> v@[i] > x,
{
    let mut lo: usize = 0;
    let mut hi: usize = v.len();
    while lo < hi
        invariant
            0 <= lo <= hi <= v@.len(),
            sorted(v@),
            forall|i: int| 0 <= i < lo ==> v@[i] <= x,
            forall|i: int| hi <= i < v@.len() ==> v@[i] > x,
        decreases hi - lo,
    {
        let mid = lo + (hi - lo) / 2;
        if v[mid] <= x {
            lo = mid + 1;
        } else {
            hi = mid;
        }
    }
    proof {
        lemma_count_le(v@, x as int, lo as int);
    }
    lo
}

/// How many entries of sorted `v` are below `x`, by binary search.
fn count_lt_sorted(v: &Vec<u32>, x: u32) -> (r: usize)
    requires
        sorted(v@),
    ensures
        r == count_lt(v@, x as int),
        r <= v@.len(),
        forall|i: int| 0 <= i < r ==> v@[i] < x,
        forall|i: int| r <= i < v@.len() ==> v@[i] >= x,
{
    let mut lo: usize = 0;
    let mut hi: usize = v.len();
    while lo < hi
        invariant
            0 <= lo <= hi <= v@.len(),
            sorted(v@),
            forall|i: int| 0 <= i < lo ==> v@[i] < x,
            forall|i: int| hi <= i < v@.len() ==> v@[i] >= x,
        decreases hi - lo,
    {
        let mid = lo + (hi - lo) / 2;
        if v[mid] < x {
            lo = mid + 1;
        } else {
            hi = mid;
        }
    }
    proof {
        lemma_count_lt(v@, x as int, lo as int);
    }
    lo
}

proof fn lemma_count_le(v: Seq<u32>, x: int, r: int)
    requires
        sorted(v),
        0 <= r <= v.len(),
        forall|i: int| 0 <= i < r ==> v[i] <= x,
        forall|i: int| r <= i < v.len() ==> v[i] > x,
    ensures
        count_le(v, x) == r,
    decreases v.len(),
{
    if v.len() > 0 {
        let d = v.drop_last();
        if r == v.len() {
            lemma_count_le(d, x, r - 1);
        } else {
            lemma_count_le(d, x, r);
        }
    }
}

proof fn lemma_count_lt(v: Seq<u32>, x: int, r: int)
    requires
        sorted(v),
        0 <= r <= v.len(),
        forall|i: int| 0 <= i < r ==> v[i] < x,
        forall|i: int| r <= i < v.len() ==> v[i] >= x,
    ensures
        count_lt(v, x) == r,
    decreases v.len(),
{
    if v.len() > 0 {
        let d = v.drop_last();
        if r == v.len() {
            lemma_count_lt(d, x, r - 1);
        } else {
            lemma_count_lt(d, x, r);
        }
    }
}

pub proof fn lemma_sum_eq_concat(a: Seq<CigarOp>, b: Seq<CigarOp>)
    ensures
        sum_eq_len(a + b) == sum_eq_len(a) + sum_eq_len(b),
        sum_span_len(a + b) == sum_span_len(a) + sum_span_len(b),
    decreases b.len(),
{
    if b.len() == 0 {
        assert(a + b =~= a);
    } else {
        assert((a + b).drop_last() =~= a + b.drop_last());
        lemma_sum_eq_concat(a, b.drop_last());
    }
}

proof fn lemma_sum_single(op: CigarOp)
    ensures
        sum_eq_len(seq![op]) == op.eq_len(),
        sum_span_len(seq![op]) == op.span_len(),
{
    let s = seq![op];
    assert(s.drop_last() =~= Seq::<CigarOp>::empty());
    assert(sum_eq_len(s.drop_last()) == 0);
    assert(sum_span_len(s.drop_last()) == 0);
}

/// The query start of operation `i + 1` is that of operation `i` plus its
/// query length; the last one plus its length is the total.
pub proof fn lemma_query_starts_step(ops: Seq<CigarOp>, i: int)
    requires
        0 <= i < ops.len(),
        sum_qlen(ops) <= u32::MAX,
    ensures
        i + 1 < ops.len() ==> query_starts(ops)[i + 1] == query_starts(ops)[i] + ops[i].qlen(),
        i + 1 == ops.len() ==> sum_qlen(ops) == query_starts(ops)[i] + ops[i].qlen(),
{
    lemma_sum_qlen_prefix(ops, i);
    lemma_sum_qlen_prefix(ops, i + 1);
    assert(ops.subrange(0, i + 1).drop_last() =~= ops.subrange(0, i));
    if i + 1 == ops.len() {
        assert(ops.subrange(0, i + 1) =~= ops);
    }
}

/// Identity numerator and denominator of one operation.
fn op_eq_span(op: CigarOp) -> (r: (u64, u64))
    ensures
        r.0 == op.eq_len(),
        r.1 == op.span_len(),
{
    match op {
        CigarOp::Equal(n) => (n as u64, n as u64),
        CigarOp::Diff(n) | CigarOp::Ins(n) | CigarOp::Del(n) => (0, n as u64),
        _ => (0, 0),
    }
}

/// `op` cut to length `n`.
fn cut_op(op: CigarOp, n: u32) -> (r: CigarOp)
    ensures
        r == cut(op, n as int),
{
    match op {
        CigarOp::Diff(_) => CigarOp::Diff(n),
        CigarOp::Ins(_) => CigarOp::Ins(n),
        CigarOp::Equal(_) => CigarOp::Equal(n),
        CigarOp::Del(_) => CigarOp::Del(n),
        CigarOp::SoftClip(_) => CigarOp::Del(n),
        _ => op,
    }
}

impl RangeIdentityCalculator {
    /// The clamped range `[s, e)` of `[start, end)` and, when it is not
    /// empty, the indices of its first and last operations.
    fn locate(&self, start: u32, end: u32) -> (r: (u32, u32, usize, usize))
        requires
            self.wf(),
        ensures
            r.0 == clamp_low_first(start as int, self.spec_qstart() as int, self.spec_qend() as int),
            r.1 == clamp_high_first(end as int, self.spec_qstart() as int, self.spec_qend() as int),
            r.0 < r.1 ==> ({
                &&& self.spec_qstart() <= r.0 < r.1 <= self.spec_qend()
                &&& r.2 == start_op_index(self.ops(), r.0 as int)
                &&& r.3 == end_op_index(self.ops(), r.1 as int)
                &&& r.2 <= r.3 < self.ops().len()
                &&& self.query_starts@[r.2 as int] <= r.0
                &&& r.0 < self.query_starts@[r.2 as int] + self.ops()[r.2 as int].qlen()
                &&& self.query_starts@[r.3 as int] <= r.1
                &&& (r.2 < r.3 ==> r.0 < self.query_starts@[r.2 as int + 1])
            }),
    {
        let start = if start < self.qstart {
            self.qstart
        } else if start > self.qend {
            self.qend
        } else {
            start
        };
        let end = if end > self.qend {
            if self.qend < self.qstart {
                self.qstart
            } else {
                self.qend
            }
        } else if end < self.qstart {
            self.qstart
        } else {
            end
        };
        if start >= end {
            return (start, end, 0, 0);
        }
        let ghost ops = self.ops@;
        let ghost starts = self.query_starts@;
        let len = self.ops.len();
        proof {
            lemma_sum_qlen_bounds(ops);
            assert(starts[0] == 0) by {
                assert(ops.subrange(0, 0) =~= Seq::<CigarOp>::empty());
            }
        }
        let si = count_le_sorted(&self.query_starts, start) - 1;
        let k = count_lt_sorted(&self.query_starts, end);
        let ei = if k < len && self.query_starts[k] == end {
            k
        } else {
            k - 1
        };
        proof {
            lemma_query_starts_step(ops, si as int);
            assert(si <= ei);
        }
        (start, end, si, ei)
    }

    /// Can `compute_range_identity(start, end)` be asked: is the clamped
    /// range empty, or can it be cut out of the operations?
    pub fn can_compute(&self, start: u32, end: u32) -> (r: bool)
        requires
            self.wf(),
        ensures
            r == range_identity_spec(
                self.ops(),
                qstart_spec(self.ops()) as int,
                qend_spec(self.ops()) as int,
                start as int,
                end as int,
            ) is Some,
    {
        let (s, e, si, ei) = self.locate(start, end);
        if s >= e {
            return true;
        }
        let first_ok = match self.ops[si] {
            CigarOp::Diff(_) | CigarOp::Ins(_) | CigarOp::Equal(_) => true,
            _ => false,
        };
        if !first_ok {
            return false;
        }
        if si == ei {
            return true;
        }
        let last_ok = match self.ops[ei] {
            CigarOp::Diff(_) | CigarOp::Ins(_) | CigarOp::Equal(_) | CigarOp::Del(_)
            | CigarOp::SoftClip(_) => true,
            _ => false,
        };
        if !last_ok {
            return false;
        }
        let mut j: usize = si + 1;
        while j < ei
            invariant
                si + 1 <= j <= ei,
                ei < self.ops@.len(),
                si == start_op_index(self.ops@, s as int),
                ei == end_op_index(self.ops@, e as int),
                self.wf(),
                s < e,
                s == clamp_low_first(start as int, self.spec_qstart() as int, self.spec_qend() as int),
                e == clamp_high_first(end as int, self.spec_qstart() as int, self.spec_qend() as int),
                cuttable_first(self.ops@[si as int]),
                cuttable_last(self.ops@[ei as int]),
                forall|k: int| si < k < j ==> inner_ok(#[trigger] self.ops@[k]),
            decreases ei - j,
        {
            match self.ops[j] {
                CigarOp::Match(_) | CigarOp::RefSkip(_) | CigarOp::HardClip(_) | CigarOp::Pad(_) => {
                    proof {
                        assert(!inner_ok(self.ops@[j as int]));
                        assert(!range_cuttable(self.ops@, s as int, e as int));
                    }
                    return false;
                },
                _ => {},
            }
            j = j + 1;
        }
        true
    }

    /// Identity of query range `[start, end)` (absolute query offsets).
    ///
    /// The range is first clamped to the aligned part of the query; an empty
    /// range has identity 0. Otherwise the operations covering it are cut at
    /// both edges and summed. The range must be one that can be cut out
    /// (`can_compute`): an edge in an operation that cannot be cut there, or
    /// an `M N H P` inside, makes the alignment unfit for the question.
    pub fn compute_range_identity(&self, start: u32, end: u32) -> (r: RangeIdentity)
        requires
            self.wf(),
            range_identity_spec(
                self.ops(),
                qstart_spec(self.ops()) as int,
                qend_spec(self.ops()) as int,
                start as int,
                end as int,
            ) is Some,
        ensures
            r == range_identity_spec(
                self.ops(),
                qstart_spec(self.ops()) as int,
                qend_spec(self.ops()) as int,
                start as int,
                end as int,
            )->Some_0,
    {
        let (start, end, si, ei) = self.locate(start, end);
        if start >= end {
            return RangeIdentity { start, end: start, eq_len: 0, span_len: 0 };
        }
        let ghost ops = self.ops@;
        let first = self.ops[si];
        if si == ei {
            let single = cut_op(first, end - start);
            let (eq, span) = op_eq_span(single);
            proof {
                let ro = range_ops(ops, start as int, end as int);
                assert(ro == seq![single]);
                lemma_sum_single(single);
            }
            return RangeIdentity { start, end, eq_len: eq, span_len: span };
        }
        proof {
            assert(self.query_starts@ == query_starts(ops));
            lemma_query_starts_step(ops, si as int);
        }
        let (eq, span) = self.range_sums(start, end, si, ei);
        RangeIdentity { start, end, eq_len: eq, span_len: span }
    }

    /// Sums over `range_ops` when the range covers several operations.
    fn range_sums(&self, start: u32, end: u32, si: usize, ei: usize) -> (r: (u64, u64))
        requires
            self.wf(),
            self.spec_qstart() <= start < end <= self.spec_qend(),
            si < ei,
            si == start_op_index(self.ops(), start as int),
            ei == end_op_index(self.ops(), end as int),
            ei < self.ops().len(),
            cuttable_first(self.ops()[si as int]),
            cuttable_last(self.ops()[ei as int]),
            self.query_starts@[si as int] <= start,
            start - self.query_starts@[si as int] <= self.ops()[si as int].spec_len(),
            self.query_starts@[ei as int] <= end,
        ensures
            r.0 == sum_eq_len(range_ops(self.ops(), start as int, end as int)),
            r.1 == sum_span_len(range_ops(self.ops(), start as int, end as int)),
    {
        let ghost ops = self.ops@;
        let len = self.ops.len();
        let first = self.ops[si];
        let last = self.ops[ei];
        let first_cut = cut_op(first, first.len() - (start - self.query_starts[si]));
        let last_cut = cut_op(last, end - self.query_starts[ei]);
        let (mut eq, mut span) = op_eq_span(first_cut);
        let mut j: usize = si + 1;
        while j < ei
            invariant
                si + 1 <= j <= ei,
                ei < len == ops.len(),
                ops == self.ops@,
                ops.len() <= u32::MAX,
                eq == first_cut.eq_len() + sum_eq_len(ops.subrange(si + 1, j as int)),
                span == first_cut.span_len() + sum_span_len(ops.subrange(si + 1, j as int)),
                eq <= (j - si) * 4294967295,
                span <= (j - si) * 4294967295,
            decreases ei - j,
        {
            let (oe, os) = op_eq_span(self.ops[j]);
            proof {
                let next = ops.subrange(si + 1, j + 1);
                assert(next.drop_last() =~= ops.subrange(si + 1, j as int));
            }
            eq = eq + oe;
            span = span + os;
            j = j + 1;
        }
        let (le, ls) = op_eq_span(last_cut);
        proof {
            let mid = ops.subrange(si + 1, ei as int);
            let ro = range_ops(ops, start as int, end as int);
            assert(ro =~= seq![first_cut] + mid + seq![last_cut]);
            lemma_sum_eq_concat(seq![first_cut], mid);
            lemma_sum_eq_concat(seq![first_cut] + mid, seq![last_cut]);
            lemma_sum_single(first_cut);
            lemma_sum_single(last_cut);
        }
        (eq + le, span + ls)
    }
}

/// An empty query range has identity 0: `compute_range_identity(x, x)`
/// gives no `=` bases and an empty span.
pub proof fn lemma_empty_range_identity(ops: Seq<CigarOp>, x: int)
    ensures
        ({
            let r = range_identity_spec(ops, qstart_spec(ops) as int, qend_spec(ops) as int, x, x);
            &&& r is Some
            &&& r->Some_0.eq_len == 0
            &&& r->Some_0.span_len == 0
            &&& r->Some_0.start == r->Some_0.end
        }),
{
}

/// Query starts of the operations never decrease, and each is the query
/// length of the operations before it.
pub proof fn lemma_query_starts_sorted(ops: Seq<CigarOp>)
    requires
        sum_qlen(ops) <= u32::MAX,
    ensures
        sorted(query_starts(ops)),
        forall|i: int| 0 <= i < ops.len() ==> #[trigger] query_starts(ops)[i] == sum_qlen(ops.subrange(0, i)),
{
    assert forall|i: int| 0 <= i < ops.len() implies #[trigger] query_starts(ops)[i] == sum_qlen(ops.subrange(0, i)) by {
        lemma_sum_qlen_prefix(ops, i);
    }
    assert forall|i: int, j: int| 0 <= i <= j < query_starts(ops).len() implies query_starts(ops)[i] <= query_starts(ops)[j] by {
        let pj = ops.subrange(0, j);
        lemma_sum_qlen_prefix(pj, i);
        assert(pj.subrange(0, i) =~= ops.subrange(0, i));
        lemma_sum_qlen_prefix(ops, j);
    }
}

/// Index of the first operation after a leading soft clip.
pub open spec fn core_first(ops: Seq<CigarOp>) -> int {
    if ops[0] is SoftClip {
        1
    } else {
        0
    }
}

/// Index of the last operation before a trailing soft clip.
pub open spec fn core_last(ops: Seq<CigarOp>) -> int {
    if ops.len() > 1 && ops.last() is SoftClip {
        ops.len() - 2
    } else {
        ops.len() - 1
    }
}

/// An alignment made of `= X I D` operations, between an optional soft clip
/// at each end, that starts and ends with a non-empty `= X I`.
pub open spec fn plain_alignment(ops: Seq<CigarOp>) -> bool {
    &&& ops.len() > 0
    &&& core_first(ops) <= core_last(ops)
    &&& forall|i: int|
        core_first(ops) <= i <= core_last(ops) ==> (#[trigger] ops[i] is Equal || ops[i] is Diff
            || ops[i] is Ins || ops[i] is Del)
    &&& cuttable_first(ops[core_first(ops)]) && ops[core_first(ops)].spec_len() > 0
    &&& cuttable_first(ops[core_last(ops)]) && ops[core_last(ops)].spec_len() > 0
}

proof fn lemma_sums_split(a: Seq<CigarOp>, b: Seq<CigarOp>)
    ensures
        sum_qlen(a + b) == sum_qlen(a) + sum_qlen(b),
        sum_aligned_qlen(a + b) == sum_aligned_qlen(a) + sum_aligned_qlen(b),
        sum_eq_len(a + b) == sum_eq_len(a) + sum_eq_len(b),
        sum_span_len(a + b) == sum_span_len(a) + sum_span_len(b),
    decreases b.len(),
{
    if b.len() == 0 {
        assert(a + b =~= a);
    } else {
        assert((a + b).drop_last() =~= a + b.drop_last());
        lemma_sums_split(a, b.drop_last());
    }
}

proof fn lemma_sums_one(op: CigarOp)
    ensures
        sum_qlen(seq![op]) == op.qlen(),
        sum_aligned_qlen(seq![op]) == op.aligned_qlen(),
        sum_eq_len(seq![op]) == op.eq_len(),
        sum_span_len(seq![op]) == op.span_len(),
{
    let s = seq![op];
    assert(s.drop_last() =~= Seq::<CigarOp>::empty());
    assert(sum_qlen(s.drop_last()) == 0);
    assert(sum_aligned_qlen(s.drop_last()) == 0);
    assert(sum_eq_len(s.drop_last()) == 0);
    assert(sum_span_len(s.drop_last()) == 0);
}

/// Over the core of a plain alignment, query and aligned lengths agree once
/// the leading clip is counted.
proof fn lemma_core_prefix(ops: Seq<CigarOp>, j: int)
    requires
        plain_alignment(ops),
        core_first(ops) <= j <= core_last(ops) + 1,
    ensures
        sum_qlen(ops.subrange(0, j)) == qstart_spec(ops) + sum_aligned_qlen(ops.subrange(0, j)),
    decreases j,
{
    let c0 = core_first(ops);
    if j == c0 {
        if c0 == 1 {
            let p = ops.subrange(0, 1);
            assert(p =~= seq![ops[0]]);
            lemma_sums_one(ops[0]);
        } else {
            assert(ops.subrange(0, 0) =~= Seq::<CigarOp>::empty());
        }
    } else {
        lemma_core_prefix(ops, j - 1);
        assert(ops.subrange(0, j).drop_last() =~= ops.subrange(0, j - 1));
        assert(ops[j - 1] is Equal || ops[j - 1] is Diff || ops[j - 1] is Ins || ops[j - 1] is Del);
    }
}

proof fn lemma_plain_sums(ops: Seq<CigarOp>)
    requires
        plain_alignment(ops),
        sum_qlen(ops) <= u32::MAX,
    ensures
        sum_eq_len(ops) == sum_eq_len(ops.subrange(core_first(ops), core_last(ops) + 1)),
        sum_span_len(ops) == sum_span_len(ops.subrange(core_first(ops), core_last(ops) + 1)),
        query_starts(ops)[core_first(ops)] == qstart_spec(ops),
        query_starts(ops)[core_last(ops)] + ops[core_last(ops)].spec_len() == qend_spec(ops),
        qstart_spec(ops) < qend_spec(ops),
        core_first(ops) < core_last(ops) ==> query_starts(ops)[core_first(ops) + 1] == qstart_spec(ops) + ops[core_first(ops)].spec_len(),
        core_last(ops) + 1 < ops.len() ==> query_starts(ops)[core_last(ops) + 1] == qend_spec(ops),
{
    let n = ops.len() as int;
    let c0 = core_first(ops);
    let cl = core_last(ops);
    lemma_query_starts_sorted(ops);
    let head = ops.subrange(0, c0);
    let core = ops.subrange(c0, cl + 1);
    let tail = ops.subrange(cl + 1, n);
    assert(ops =~= head + core + tail);
    lemma_sums_split(head + core, tail);
    lemma_sums_split(head, core);
    if c0 == 1 {
        assert(head =~= seq![ops[0]]);
        lemma_sums_one(ops[0]);
    } else {
        assert(head =~= Seq::<CigarOp>::empty());
    }
    if cl + 1 < n {
        assert(tail =~= seq![ops[n - 1]]);
        lemma_sums_one(ops[n - 1]);
    } else {
        assert(tail =~= Seq::<CigarOp>::empty());
    }
    lemma_core_prefix(ops, c0);
    lemma_core_prefix(ops, c0 + 1);
    lemma_core_prefix(ops, cl);
    lemma_core_prefix(ops, cl + 1);
    assert(ops.subrange(0, cl + 1) =~= head + core);
    assert(ops.subrange(0, cl + 1).drop_last() =~= ops.subrange(0, cl));
    assert(ops.subrange(0, c0 + 1).drop_last() =~= ops.subrange(0, c0));
    lemma_sum_qlen_bounds(ops);
}

proof fn lemma_plain_indices(ops: Seq<CigarOp>)
    requires
        plain_alignment(ops),
        sum_qlen(ops) <= u32::MAX,
    ensures
        start_op_index(ops, qstart_spec(ops) as int) == core_first(ops),
        end_op_index(ops, qend_spec(ops) as int) == if core_last(ops) + 1 < ops.len() {
            core_last(ops) + 1
        } else {
            core_last(ops)
        },
{
    let n = ops.len() as int;
    let c0 = core_first(ops);
    let cl = core_last(ops);
    let qs = qstart_spec(ops) as int;
    let qe = qend_spec(ops) as int;
    let starts = query_starts(ops);
    lemma_query_starts_sorted(ops);
    lemma_plain_sums(ops);
    assert forall|i: int| c0 + 1 <= i < n implies starts[i] > qs by {
        if c0 < cl {
            assert(starts[c0 + 1] <= starts[i]);
        } else {
            assert(starts[cl + 1] <= starts[i]);
        }
    }
    lemma_count_le(starts, qs, c0 + 1);
    if cl + 1 < n {
        lemma_count_lt(starts, qe, cl + 1);
    } else {
        lemma_count_lt(starts, qe, n);
    }
}

/// For a plain alignment, the identity over the whole aligned part is the
/// plain formula over all operations: `=` bases over `= X I D` bases.
pub proof fn lemma_full_span_identity(ops: Seq<CigarOp>)
    requires
        plain_alignment(ops),
        sum_qlen(ops) <= u32::MAX,
    ensures
        range_identity_spec(
            ops,
            qstart_spec(ops) as int,
            qend_spec(ops) as int,
            qstart_spec(ops) as int,
            qend_spec(ops) as int,
        ) == Some(
            RangeIdentity {
                start: qstart_spec(ops) as u32,
                end: qend_spec(ops) as u32,
                eq_len: sum_eq_len(ops) as u64,
                span_len: sum_span_len(ops) as u64,
            },
        ),
{
    let n = ops.len() as int;
    let c0 = core_first(ops);
    let cl = core_last(ops);
    let qs = qstart_spec(ops) as int;
    let qe = qend_spec(ops) as int;
    let starts = query_starts(ops);
    let core = ops.subrange(c0, cl + 1);
    lemma_plain_sums(ops);
    lemma_plain_indices(ops);
    let ro = range_ops(ops, qs, qe);
    if c0 == cl && cl + 1 == n {
        assert(ro =~= seq![ops[c0]]);
        assert(core =~= seq![ops[c0]]);
        lemma_sums_one(ops[c0]);
    } else {
        let first = cut(ops[c0], ops[c0].spec_len() - (qs - starts[c0]));
        assert(first == ops[c0]);
        if cl + 1 < n {
            let mid = ops.subrange(c0 + 1, cl + 1);
            let last = cut(ops[cl + 1], qe - starts[cl + 1]);
            assert(ro =~= seq![first] + mid + seq![last]);
            assert(core =~= seq![first] + mid);
            lemma_sums_split(seq![first] + mid, seq![last]);
            lemma_sums_split(seq![first], mid);
            lemma_sums_one(first);
            lemma_sums_one(last);
        } else {
            let mid = ops.subrange(c0 + 1, cl);
            let last = cut(ops[cl], qe - starts[cl]);
            assert(last == ops[cl]);
            assert(ro =~= seq![first] + mid + seq![last]);
            assert(core =~= seq![first] + mid + seq![last]);
        }
    }
}

proof fn lemma_count_le_char(v: Seq<u32>, x: int)
    requires
        sorted(v),
    ensures
        count_le(v, x) <= v.len(),
        forall|i: int| 0 <= i < count_le(v, x) ==> v[i] <= x,
        forall|i: int| count_le(v, x) <= i < v.len() ==> v[i] > x,
    decreases v.len(),
{
    if v.len() > 0 {
        let d = v.drop_last();
        assert(sorted(d)) by {
            assert forall|i: int, j: int| 0 <= i <= j < d.len() implies d[i] <= d[j] by {
                assert(d[i] == v[i] && d[j] == v[j]);
            }
        }
        lemma_count_le_char(d, x);
        assert forall|i: int| 0 <= i < d.len() implies d[i] == v[i] by {}
        if v.last() <= x {
            assert forall|i: int| 0 <= i < v.len() implies v[i] <= x by {
                assert(v[i] <= v[v.len() - 1]);
            }
            if count_le(d, x) < d.len() {
                assert(d[count_le(d, x) as int] <= x);
            }
        }
    }
}

proof fn lemma_count_lt_char(v: Seq<u32>, x: int)
    requires
        sorted(v),
    ensures
        count_lt(v, x) <= v.len(),
        forall|i: int| 0 <= i < count_lt(v, x) ==> v[i] < x,
        forall|i: int| count_lt(v, x) <= i < v.len() ==> v[i] >= x,
    decreases v.len(),
{
    if v.len() > 0 {
        let d = v.drop_last();
        assert(sorted(d)) by {
            assert forall|i: int, j: int| 0 <= i <= j < d.len() implies d[i] <= d[j] by {
                assert(d[i] == v[i] && d[j] == v[j]);
            }
        }
        lemma_count_lt_char(d, x);
        assert forall|i: int| 0 <= i < d.len() implies d[i] == v[i] by {}
        if v.last() < x {
            assert forall|i: int| 0 <= i < v.len() implies v[i] < x by {
                assert(v[i] <= v[v.len() - 1]);
            }
            if count_lt(d, x) < d.len() {
                assert(d[count_lt(d, x) as int] < x);
            }
        }
    }
}

/// Query offset `p` does not fall between operations that begin at `p`
/// and hold `= X I D` bases: of the operations beginning at `p`, all but
/// the last have an empty span.
pub open spec fn clean_boundary(ops: Seq<CigarOp>, p: int) -> bool {
    forall|i: int|
        0 <= i < ops.len() - 1 && #[trigger] query_starts(ops)[i] == p && query_starts(ops)[i + 1]
            == p ==> ops[i].span_len() == 0
}

/// Cutting an `= X I` operation into two lengths splits its sums.
proof fn lemma_cut_linear(op: CigarOp, x: int, y: int)
    requires
        cuttable_first(op),
        0 <= x,
        0 <= y,
        x + y <= u32::MAX,
    ensures
        cut(op, x).eq_len() + cut(op, y).eq_len() == cut(op, x + y).eq_len(),
        cut(op, x).span_len() + cut(op, y).span_len() == cut(op, x + y).span_len(),
        cut(op, op.spec_len() as int) == op,
{
}

/// Facts about where the operation indices of a range fall.
proof fn lemma_index_facts(ops: Seq<CigarOp>, x: int)
    requires
        ops.len() > 0,
        sum_qlen(ops) <= u32::MAX,
        0 <= x,
    ensures
        ({
            let st = query_starts(ops);
            let si = start_op_index(ops, x);
            &&& forall|i: int| 0 <= i <= si ==> st[i] <= x
            &&& forall|i: int| si < i < ops.len() ==> st[i] > x
            &&& 0 <= si < ops.len()
        }),
        ({
            let st = query_starts(ops);
            let k = count_lt(st, x) as int;
            &&& k <= ops.len()
            &&& forall|i: int| 0 <= i < k ==> st[i] < x
            &&& forall|i: int| k <= i < ops.len() ==> st[i] >= x
        }),
{
    lemma_query_starts_sorted(ops);
    let st = query_starts(ops);
    lemma_count_le_char(st, x);
    lemma_count_lt_char(st, x);
    assert(st[0] == 0) by {
        assert(ops.subrange(0, 0) =~= Seq::<CigarOp>::empty());
    }
}

/// Sums over `a` and then the operations `[i, j)` of `ops` add up to the
/// sums over `[i, j)` split at `m`.
proof fn lemma_mid_split(ops: Seq<CigarOp>, i: int, m: int, j: int)
    requires
        0 <= i <= m <= j <= ops.len(),
    ensures
        sum_eq_len(ops.subrange(i, j)) == sum_eq_len(ops.subrange(i, m)) + sum_eq_len(ops.subrange(m, j)),
        sum_span_len(ops.subrange(i, j)) == sum_span_len(ops.subrange(i, m)) + sum_span_len(ops.subrange(m, j)),
{
    assert(ops.subrange(i, j) =~= ops.subrange(i, m) + ops.subrange(m, j));
    lemma_sums_split(ops.subrange(i, m), ops.subrange(m, j));
}

/// Operations `[i, j)` that all have an empty span add nothing.
proof fn lemma_empty_spans(ops: Seq<CigarOp>, i: int, j: int)
    requires
        0 <= i <= j <= ops.len(),
        forall|k: int| i <= k < j ==> #[trigger] ops[k].span_len() == 0,
    ensures
        sum_eq_len(ops.subrange(i, j)) == 0,
        sum_span_len(ops.subrange(i, j)) == 0,
    decreases j - i,
{
    if i < j {
        lemma_empty_spans(ops, i, j - 1);
        assert(ops.subrange(i, j).drop_last() =~= ops.subrange(i, j - 1));
        assert(ops.subrange(i, j).last() == ops[j - 1]);
        assert(ops[j - 1].span_len() == 0);
        assert(ops[j - 1].eq_len() == 0);
    } else {
        assert(ops.subrange(i, j) =~= Seq::<CigarOp>::empty());
    }
}

/// The sums over `range_ops` with the edges cut.
pub open spec fn range_eq(ops: Seq<CigarOp>, s: int, e: int) -> nat {
    sum_eq_len(range_ops(ops, s, e))
}

pub open spec fn range_span(ops: Seq<CigarOp>, s: int, e: int) -> nat {
    sum_span_len(range_ops(ops, s, e))
}

proof fn lemma_range_sums(ops: Seq<CigarOp>, s: int, e: int)
    ensures
        ({
            let st = query_starts(ops);
            let si = start_op_index(ops, s);
            let ei = end_op_index(ops, e);
            let first = cut(ops[si], ops[si].spec_len() - (s - st[si]));
            let last = cut(ops[ei], e - st[ei]);
            let mid = ops.subrange(si + 1, ei);
            &&& si == ei ==> range_eq(ops, s, e) == cut(ops[si], e - s).eq_len()
                && range_span(ops, s, e) == cut(ops[si], e - s).span_len()
            &&& si != ei ==> range_eq(ops, s, e) == first.eq_len() + sum_eq_len(mid) + last.eq_len()
                && range_span(ops, s, e) == first.span_len() + sum_span_len(mid) + last.span_len()
        }),
{
    let st = query_starts(ops);
    let si = start_op_index(ops, s);
    let ei = end_op_index(ops, e);
    if si == ei {
        lemma_sums_one(cut(ops[si], e - s));
    } else {
        let first = cut(ops[si], ops[si].spec_len() - (s - st[si]));
        let last = cut(ops[ei], e - st[ei]);
        let mid = ops.subrange(si + 1, ei);
        lemma_sums_split(seq![first] + mid, seq![last]);
        lemma_sums_split(seq![first], mid);
        lemma_sums_one(first);
        lemma_sums_one(last);
    }
}

proof fn lemma_single_sum(ops: Seq<CigarOp>, j: int)
    requires
        0 <= j < ops.len(),
    ensures
        sum_eq_len(ops.subrange(j, j + 1)) == ops[j].eq_len(),
        sum_span_len(ops.subrange(j, j + 1)) == ops[j].span_len(),
{
    assert(ops.subrange(j, j + 1) =~= seq![ops[j]]);
    lemma_sums_one(ops[j]);
}

/// Offset `x` in `[0, total)` lies inside the operation that
/// `start_op_index` picks.
proof fn lemma_inside_start_op(ops: Seq<CigarOp>, x: int)
    requires
        ops.len() > 0,
        sum_qlen(ops) <= u32::MAX,
        0 <= x < sum_qlen(ops),
    ensures
        x < query_starts(ops)[start_op_index(ops, x)] + ops[start_op_index(ops, x)].qlen(),
{
    lemma_index_facts(ops, x);
    let si = start_op_index(ops, x);
    lemma_query_starts_step(ops, si);
}

#[verifier::rlimit(80)]
proof fn lemma_split_inside(ops: Seq<CigarOp>, s: int, p: int, e: int)
    requires
        ops.len() > 0,
        sum_qlen(ops) <= u32::MAX,
        qstart_spec(ops) <= s < p < e <= qend_spec(ops),
        range_cuttable(ops, s, p),
        range_cuttable(ops, p, e),
        range_cuttable(ops, s, e),
        forall|i: int| 0 <= i < ops.len() ==> #[trigger] query_starts(ops)[i] != p,
    ensures
        range_eq(ops, s, p) + range_eq(ops, p, e) == range_eq(ops, s, e),
        range_span(ops, s, p) + range_span(ops, p, e) == range_span(ops, s, e),
{
    let st = query_starts(ops);
    let n = ops.len() as int;
    lemma_query_starts_sorted(ops);
    lemma_sum_qlen_bounds(ops);
    lemma_index_facts(ops, s);
    lemma_index_facts(ops, p);
    lemma_index_facts(ops, e);
    lemma_range_sums(ops, s, p);
    lemma_range_sums(ops, p, e);
    lemma_range_sums(ops, s, e);
    let S = start_op_index(ops, s);
    let E = end_op_index(ops, e);
    let a = end_op_index(ops, p);
    let j = start_op_index(ops, p);
    let kp = count_lt(st, p) as int;
    assert(!(kp < n && st[kp] == p));
    assert(a == kp - 1);
    assert(j == a) by {
        if j > a {
            assert(st[j] <= p);
            assert(st[j] >= p);
        }
        if j < a {
            assert(st[a] < p);
            assert(st[a] > p);
        }
    }
    assert(S <= j) by {
        if S > j {
            assert(st[S] <= s);
        }
    }
    assert(j <= E) by {
        let ke = count_lt(st, e) as int;
        if j >= ke {
            assert(st[j] >= e);
        }
    }
    lemma_inside_start_op(ops, p);
    lemma_inside_start_op(ops, s);
    let lj = ops[j].spec_len() as int;
    assert(cuttable_first(ops[j]));
    assert(ops[j].qlen() == lj);
    lemma_cut_linear(ops[j], 0, 0);
    if S == j {
        if j == E {
            lemma_cut_linear(ops[j], p - s, e - p);
        } else {
            lemma_cut_linear(ops[j], p - s, lj - (p - st[j]));
        }
    } else {
        if j == E {
            lemma_cut_linear(ops[j], p - st[j], e - p);
        } else {
            lemma_cut_linear(ops[j], p - st[j], lj - (p - st[j]));
            lemma_mid_split(ops, S + 1, j, E);
            lemma_mid_split(ops, j, j + 1, E);
            lemma_single_sum(ops, j);
        }
    }
}

#[verifier::rlimit(80)]
proof fn lemma_split_boundary(ops: Seq<CigarOp>, s: int, p: int, e: int, q: int)
    requires
        ops.len() > 0,
        sum_qlen(ops) <= u32::MAX,
        qstart_spec(ops) <= s < p < e <= qend_spec(ops),
        range_cuttable(ops, s, p),
        range_cuttable(ops, p, e),
        range_cuttable(ops, s, e),
        clean_boundary(ops, p),
        0 <= q < ops.len(),
        query_starts(ops)[q] == p,
    ensures
        range_eq(ops, s, p) + range_eq(ops, p, e) == range_eq(ops, s, e),
        range_span(ops, s, p) + range_span(ops, p, e) == range_span(ops, s, e),
{
    let st = query_starts(ops);
    let n = ops.len() as int;
    lemma_query_starts_sorted(ops);
    lemma_sum_qlen_bounds(ops);
    lemma_index_facts(ops, s);
    lemma_index_facts(ops, p);
    lemma_index_facts(ops, e);
    lemma_range_sums(ops, s, p);
    lemma_range_sums(ops, p, e);
    lemma_range_sums(ops, s, e);
    let S = start_op_index(ops, s);
    let E = end_op_index(ops, e);
    let a = end_op_index(ops, p);
    let b = start_op_index(ops, p);
    let kp = count_lt(st, p) as int;
    assert(kp <= q);
    assert(st[kp] == p) by {
        assert(st[kp] <= st[q]);
    }
    assert(a == kp);
    assert(a <= b);
    assert(S < a) by {
        if S >= a {
            assert(st[S] <= s);
            assert(st[S] >= st[a]);
        }
    }
    assert(b <= E) by {
        let ke = count_lt(st, e) as int;
        if b >= ke {
            assert(st[b] >= e);
        }
    }
    assert(st[b] == p);
    // the operations strictly between add nothing
    assert forall|i: int| a <= i < b implies #[trigger] ops[i].span_len() == 0 by {
        assert(st[a] <= st[i] && st[i] <= st[b]);
        assert(st[a] <= st[i + 1] && st[i + 1] <= st[b]);
    }
    lemma_empty_spans(ops, a, b);
    lemma_mid_split(ops, S + 1, a, b);
    let lb = ops[b].spec_len() as int;
    assert(cuttable_first(ops[b]));
    lemma_cut_linear(ops[b], 0, 0);
    assert(cuttable_last(ops[a]));
    if b == E {
        assert(E != S);
    } else {
        lemma_mid_split(ops, S + 1, b, E);
        lemma_mid_split(ops, b, b + 1, E);
        lemma_single_sum(ops, b);
    }
}

/// Splitting a range at an inner point `p` splits its identity sums: the
/// `=` bases and the `= X I D` bases of `[s, p)` and `[p, e)` add up to
/// those of `[s, e)`. It holds where each range can be cut and where no
/// operation with bases begins at `p` only to be followed by another that
/// begins there (a deletion right at `p` is counted by neither half).
pub proof fn lemma_split_additive(ops: Seq<CigarOp>, s: int, p: int, e: int)
    requires
        ops.len() > 0,
        sum_qlen(ops) <= u32::MAX,
        qstart_spec(ops) <= s < p < e <= qend_spec(ops),
        range_cuttable(ops, s, p),
        range_cuttable(ops, p, e),
        range_cuttable(ops, s, e),
        clean_boundary(ops, p),
    ensures
        range_eq(ops, s, p) + range_eq(ops, p, e) == range_eq(ops, s, e),
        range_span(ops, s, p) + range_span(ops, p, e) == range_span(ops, s, e),
{
    if exists|q: int| 0 <= q < ops.len() && #[trigger] query_starts(ops)[q] == p {
        let q = choose|q: int| 0 <= q < ops.len() && #[trigger] query_starts(ops)[q] == p;
        lemma_split_boundary(ops, s, p, e, q);
    } else {
        lemma_split_inside(ops, s, p, e);
    }
}

} // verus!
