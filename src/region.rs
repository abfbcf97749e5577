use vstd::prelude::*;

verus! {

/// A half-open interval `[start, end)`.
#[derive(Clone, Copy, Debug, PartialEq, Eq, Structural)]
pub struct Region {
    pub start: usize,
    pub end: usize,
}

impl Region {
    pub fn new(s: usize, e: usize) -> (r: Self)
        ensures
            r.start == s,
            r.end == e,
    {
        Self { start: s, end: e }
    }

    /// Number of positions in the interval.
    pub fn length(&self) -> (r: usize)
        requires
            self.start <= self.end,
        ensures
            r == self.end - self.start,
    {
        self.end - self.start
    }
}

/// Is `x` inside one of `rs`?
pub open spec fn covered(rs: Seq<Region>, x: int) -> bool {
    exists|i: int| #![trigger rs[i]] 0 <= i < rs.len() && rs[i].start <= x < rs[i].end
}

/// How many of `rs` hold `x`.
pub open spec fn depth(rs: Seq<Region>, x: int) -> nat
    decreases rs.len(),
{
    if rs.len() == 0 {
        0
    } else {
        depth(rs.drop_last(), x) + if rs.last().start <= x < rs.last().end {
            1nat
        } else {
            0nat
        }
    }
}

/// How many positions in `[lo, hi)` lie in two or more of `rs`.
pub open spec fn overlap_count(rs: Seq<Region>, lo: int, hi: int) -> nat
    decreases hi - lo,
{
    if hi <= lo {
        0
    } else {
        overlap_count(rs, lo, hi - 1) + if depth(rs, hi - 1) >= 2 {
            1nat
        } else {
            0nat
        }
    }
}

/// Sum of the lengths of `rs`.
pub open spec fn sum_lengths(rs: Seq<Region>) -> int
    decreases rs.len(),
{
    if rs.len() == 0 {
        0
    } else {
        sum_lengths(rs.drop_last()) + rs.last().end - rs.last().start
    }
}

/// Gap before each interval from the end of the previous one (or from
/// `init`), and from the last end to `end_pos`.
pub open spec fn gaps_spec(rs: Seq<Region>, init: Option<usize>, end_pos: Option<usize>) -> Seq<i64> {
    if rs.len() == 0 {
        seq![]
    } else {
        let inner = Seq::new(
            (rs.len() - 1) as nat,
            |i: int| (rs[i + 1].start - rs[i].end) as i64,
        );
        let head = match init {
            Some(p) => seq![(rs[0].start - p) as i64],
            None => seq![],
        };
        let tail = match end_pos {
            Some(e) => seq![(e - rs.last().end) as i64],
            None => seq![],
        };
        head + inner + tail
    }
}

/// A list of intervals.
pub struct Regions(pub Vec<Region>);

impl Regions {
    pub fn new(regions: Vec<Region>) -> (r: Self)
        ensures
            r.0@ == regions@,
    {
        Self(regions)
    }

    /// Intervals from `(start, end)` pairs.
    pub fn from_pairs(value: &Vec<(usize, usize)>) -> (r: Self)
        ensures
            r.0@.len() == value@.len(),
            forall|i: int|
                0 <= i < value@.len() ==> #[trigger] r.0@[i] == (Region {
                    start: value@[i].0,
                    end: value@[i].1,
                }),
    {
        let mut out: Vec<Region> = Vec::new();
        let mut i: usize = 0;
        while i < value.len()
            invariant
                0 <= i <= value@.len(),
                out@.len() == i,
                forall|j: int|
                    0 <= j < i ==> #[trigger] out@[j] == (Region {
                        start: value@[j].0,
                        end: value@[j].1,
                    }),
            decreases value@.len() - i,
        {
            out.push(Region { start: value[i].0, end: value[i].1 });
            i = i + 1;
        }
        Self(out)
    }

    /// Sum of the interval lengths.
    pub fn total_length(&self) -> (r: usize)
        requires
            forall|i: int| 0 <= i < self.0@.len() ==> #[trigger] self.0@[i].start <= self.0@[i].end,
            sum_lengths(self.0@) <= usize::MAX,
        ensures
            r == sum_lengths(self.0@),
    {
        let mut total: usize = 0;
        let mut i: usize = 0;
        while i < self.0.len()
            invariant
                0 <= i <= self.0@.len(),
                forall|k: int| 0 <= k < self.0@.len() ==> #[trigger] self.0@[k].start <= self.0@[k].end,
                sum_lengths(self.0@) <= usize::MAX,
                total == sum_lengths(self.0@.subrange(0, i as int)),
            decreases self.0@.len() - i,
        {
            proof {
                assert(self.0@.subrange(0, i as int + 1).drop_last() =~= self.0@.subrange(0, i as int));
                lemma_sum_lengths_prefix(self.0@, i as int + 1);
            }
            total = total + self.0[i].length();
            i = i + 1;
        }
        proof {
            assert(self.0@.subrange(0, self.0@.len() as int) =~= self.0@);
        }
        total
    }

    /// The same positions as one list of non-empty intervals in increasing
    /// order, with touching or overlapping intervals joined and empty ones
    /// left out.
    pub fn merge_regions(&self) -> (r: Self)
        requires
            forall|i: int| 0 <= i < self.0@.len() ==> #[trigger] self.0@[i].start <= self.0@[i].end,
        ensures
            forall|x: int| covered(r.0@, x) <==> covered(self.0@, x),
            forall|i: int, j: int| 0 <= i < j < r.0@.len() ==> r.0@[i].end < r.0@[j].start,
            forall|i: int| 0 <= i < r.0@.len() ==> #[trigger] r.0@[i].start < r.0@[i].end,
    {
        let rs = &self.0;
        let n = rs.len();
        let mut taken: Vec<bool> = Vec::new();
        let mut k: usize = 0;
        while k < n
            invariant
                0 <= k <= n,
                taken@.len() == k,
                forall|q: int| 0 <= q < k ==> !taken@[q],
            decreases n - k,
        {
            taken.push(false);
            k = k + 1;
        }
        let mut out: Vec<Region> = Vec::new();
        let mut round: usize = 0;
        let ghost mut finished = false;
        proof {
            lemma_count_true_none(taken@);
        }
        while round < n
            invariant
                n == rs@.len(),
                taken@.len() == n,
                0 <= round <= n,
                forall|i: int| 0 <= i < n ==> #[trigger] rs@[i].start <= rs@[i].end,
                round == count_true(taken@),
                finished ==> forall|p: int| 0 <= p < n ==> taken@[p],
                forall|i: int| 0 <= i < out@.len() ==> #[trigger] out@[i].start < out@[i].end,
                forall|i: int, j: int| 0 <= i < j < out@.len() ==> out@[i].end < out@[j].start,
                out@.len() > 0 ==> forall|q: int|
                    0 <= q < n && !taken@[q] ==> out@.last().start <= #[trigger] rs@[q].start,
                forall|x: int|
                    covered(rs@, x) <==> (covered(out@, x) || exists|q: int|
                        #![trigger rs@[q]]
                        0 <= q < n && !taken@[q] && rs@[q].start <= x < rs@[q].end),
            ensures
                finished || round >= n,
            decreases n - round,
        {
            // pick the untaken interval with the smallest start
            let mut best: usize = n;
            let mut q: usize = 0;
            while q < n
                invariant
                    n == rs@.len(),
                    taken@.len() == n,
                    0 <= q <= n,
                    best == n || (best < q && !taken@[best as int]),
                    best < n ==> forall|p: int|
                        0 <= p < q && !taken@[p] ==> rs@[best as int].start <= #[trigger] rs@[p].start,
                    best == n ==> forall|p: int| 0 <= p < q ==> taken@[p],
                decreases n - q,
            {
                if !taken[q] && (best == n || rs[q].start < rs[best].start) {
                    best = q;
                }
                q = q + 1;
            }
            if best == n {
                proof {
                    finished = true;
                }
                break;
            }
            let ghost old_taken = taken@;
            let ghost old_out = out@;
            taken.set(best, true);
            proof {
                lemma_count_true_set(old_taken, best as int);
            }
            let reg = rs[best];
            let len = out.len();
            if reg.start == reg.end {
                proof {
                    assert forall|x: int| covered(rs@, x) <==> (covered(out@, x) || exists|p: int|
                        #![trigger rs@[p]]
                        0 <= p < n && !taken@[p] && rs@[p].start <= x < rs@[p].end) by {
                        if exists|p: int|
                            #![trigger rs@[p]]
                            0 <= p < n && !old_taken[p] && rs@[p].start <= x < rs@[p].end {
                            let p = choose|p: int|
                                #![trigger rs@[p]]
                                0 <= p < n && !old_taken[p] && rs@[p].start <= x < rs@[p].end;
                            assert(p != best);
                        }
                    }
                }
            } else if len > 0 && reg.start <= out[len - 1].end {
                let last = out[len - 1];
                let new_end = if last.end > reg.end {
                    last.end
                } else {
                    reg.end
                };
                out.set(len - 1, Region { start: last.start, end: new_end });
                proof {
                    assert forall|x: int| covered(rs@, x) <==> (covered(out@, x) || exists|p: int|
                        #![trigger rs@[p]]
                        0 <= p < n && !taken@[p] && rs@[p].start <= x < rs@[p].end) by {
                        if covered(old_out, x) {
                            let i = choose|i: int| #![trigger old_out[i]] 0 <= i < old_out.len() && old_out[i].start <= x < old_out[i].end;
                            if i == len - 1 {
                                assert(out@[i].start <= x < out@[i].end);
                            } else {
                                assert(out@[i] == old_out[i]);
                            }
                        }
                        if covered(out@, x) {
                            let i = choose|i: int| #![trigger out@[i]] 0 <= i < out@.len() && out@[i].start <= x < out@[i].end;
                            if i == len - 1 {
                                if x < last.end {
                                    assert(old_out[i].start <= x < old_out[i].end);
                                } else {
                                    assert(rs@[best as int].start <= x < rs@[best as int].end);
                                    assert(covered(rs@, x));
                                }
                            } else {
                                assert(old_out[i].start <= x < old_out[i].end);
                            }
                        }
                        if exists|p: int|
                            #![trigger rs@[p]]
                            0 <= p < n && !old_taken[p] && rs@[p].start <= x < rs@[p].end {
                            let p = choose|p: int|
                                #![trigger rs@[p]]
                                0 <= p < n && !old_taken[p] && rs@[p].start <= x < rs@[p].end;
                            if p == best {
                                assert(out@[len - 1].start <= x < out@[len - 1].end);
                            }
                        }
                    }
                    assert forall|i: int, j: int| 0 <= i < j < out@.len() implies out@[i].end
                        < out@[j].start by {
                        assert(old_out[i].end < old_out[j].start);
                    }
                }
            } else {
                out.push(reg);
                proof {
                    assert forall|x: int| covered(rs@, x) <==> (covered(out@, x) || exists|p: int|
                        #![trigger rs@[p]]
                        0 <= p < n && !taken@[p] && rs@[p].start <= x < rs@[p].end) by {
                        if covered(old_out, x) {
                            let i = choose|i: int| #![trigger old_out[i]] 0 <= i < old_out.len() && old_out[i].start <= x < old_out[i].end;
                            assert(out@[i] == old_out[i]);
                        }
                        if covered(out@, x) {
                            let i = choose|i: int| #![trigger out@[i]] 0 <= i < out@.len() && out@[i].start <= x < out@[i].end;
                            if i == len {
                                assert(rs@[best as int].start <= x < rs@[best as int].end);
                                assert(covered(rs@, x));
                            } else {
                                assert(old_out[i].start <= x < old_out[i].end);
                            }
                        }
                        if exists|p: int|
                            #![trigger rs@[p]]
                            0 <= p < n && !old_taken[p] && rs@[p].start <= x < rs@[p].end {
                            let p = choose|p: int|
                                #![trigger rs@[p]]
                                0 <= p < n && !old_taken[p] && rs@[p].start <= x < rs@[p].end;
                            if p == best {
                                assert(out@[len as int].start <= x < out@[len as int].end);
                            }
                        }
                    }
                    assert forall|i: int, j: int| 0 <= i < j < out@.len() implies out@[i].end
                        < out@[j].start by {
                        if j < len {
                            assert(old_out[i].end < old_out[j].start);
                        } else if i < len - 1 {
                            assert(old_out[i].end < old_out[len - 1].start);
                            assert(old_out[len - 1].start <= old_out[len - 1].end);
                            assert(old_out[len - 1].start <= rs@[best as int].start);
                        }
                    }
                }
            }
            round = round + 1;
        }
        proof {
            if !finished {
                lemma_count_true_all(taken@);
            }
            assert forall|x: int| covered(out@, x) <==> covered(rs@, x) by {
                if exists|p: int|
                    #![trigger rs@[p]]
                    0 <= p < n && !taken@[p] && rs@[p].start <= x < rs@[p].end {
                    let p = choose|p: int|
                        #![trigger rs@[p]]
                        0 <= p < n && !taken@[p] && rs@[p].start <= x < rs@[p].end;
                    assert(taken@[p]);
                }
            }
        }
        Self(out)
    }

    /// Number of positions that lie in two or more of the intervals.
    pub fn ovlp_length(&self) -> (r: usize)
        ensures
            ({
                let b = bounds_of(self.0@);
                r == overlap_count(self.0@, b.0, b.1)
            }),
    {
        let rs = &self.0;
        let n = rs.len();
        if n == 0 {
            return 0;
        }
        let (lo, hi) = self.span();
        let mut total: usize = 0;
        let mut x: usize = lo;
        if hi < lo {
            x = hi;
        }
        proof {
            assert(overlap_count(rs@, lo as int, x as int) == 0);
        }
        while x < hi
            invariant
                (lo <= x <= hi) || (hi < lo && x == hi),
                (lo as int, hi as int) == bounds_of(rs@),
                total == overlap_count(rs@, lo as int, x as int),
                total <= x,
            decreases hi - x,
        {
            let d = depth_at(rs, x);
            if d >= 2 {
                total = total + 1;
            }
            x = x + 1;
        }
        total
    }

    /// Smallest start and largest end.
    fn span(&self) -> (r: (usize, usize))
        ensures
            (r.0 as int, r.1 as int) == bounds_of(self.0@),
    {
        let mut lo: usize = usize::MAX;
        let mut hi: usize = 0;
        let mut i: usize = 0;
        proof {
            assert(self.0@.subrange(0, 0) =~= Seq::<Region>::empty());
        }
        while i < self.0.len()
            invariant
                0 <= i <= self.0@.len(),
                (lo as int, hi as int) == bounds_of(self.0@.subrange(0, i as int)),
            decreases self.0@.len() - i,
        {
            proof {
                assert(self.0@.subrange(0, i as int + 1).drop_last() =~= self.0@.subrange(0, i as int));
            }
            let r = self.0[i];
            if r.start < lo {
                lo = r.start;
            }
            if r.end > hi {
                hi = r.end;
            }
            i = i + 1;
        }
        proof {
            assert(self.0@.subrange(0, self.0@.len() as int) =~= self.0@);
        }
        (lo, hi)
    }

    /// Gaps between consecutive intervals (which must be sorted), from
    /// `init_pos` to the first, and from the last to `end_pos`.
    pub fn gaps(&self, init_pos: Option<usize>, end_pos: Option<usize>) -> (r: Vec<i64>)
        requires
            forall|i: int| 0 <= i < self.0@.len() ==> #[trigger] self.0@[i].start <= i64::MAX,
            forall|i: int| 0 <= i < self.0@.len() ==> #[trigger] self.0@[i].end <= i64::MAX,
            init_pos is Some ==> init_pos->0 <= i64::MAX,
            end_pos is Some ==> end_pos->0 <= i64::MAX,
        ensures
            r@ == gaps_spec(self.0@, init_pos, end_pos),
    {
        let rs = &self.0;
        let n = rs.len();
        let mut gaps: Vec<i64> = Vec::new();
        if n == 0 {
            return gaps;
        }
        let ghost head: Seq<i64> = match init_pos {
            Some(p) => seq![(rs@[0].start - p) as i64],
            None => seq![],
        };
        if let Some(p) = init_pos {
            gaps.push(rs[0].start as i64 - p as i64);
        }
        let mut i: usize = 1;
        while i < n
            invariant
                1 <= i <= n == rs@.len(),
                forall|k: int| 0 <= k < n ==> #[trigger] rs@[k].start <= i64::MAX,
                forall|k: int| 0 <= k < n ==> #[trigger] rs@[k].end <= i64::MAX,
                gaps@ == head + Seq::new((i - 1) as nat, |k: int| (rs@[k + 1].start - rs@[k].end) as i64),
            decreases n - i,
        {
            gaps.push(rs[i].start as i64 - rs[i - 1].end as i64);
            proof {
                assert(gaps@ =~= head + Seq::new(i as nat, |k: int| (rs@[k + 1].start - rs@[k].end) as i64));
            }
            i = i + 1;
        }
        if let Some(e) = end_pos {
            gaps.push(e as i64 - rs[n - 1].end as i64);
        }
        proof {
            assert(gaps@ =~= gaps_spec(rs@, init_pos, end_pos));
        }
        gaps
    }
}

/// Smallest start and largest end of `rs` (`usize::MAX` and 0 when empty).
pub open spec fn bounds_of(rs: Seq<Region>) -> (int, int)
    decreases rs.len(),
{
    if rs.len() == 0 {
        (usize::MAX as int, 0)
    } else {
        let b = bounds_of(rs.drop_last());
        let r = rs.last();
        (
            if r.start < b.0 {
                r.start as int
            } else {
                b.0
            },
            if r.end > b.1 {
                r.end as int
            } else {
                b.1
            },
        )
    }
}

/// How many intervals hold `x`.
fn depth_at(rs: &Vec<Region>, x: usize) -> (r: usize)
    ensures
        r == depth(rs@, x as int),
{
    let mut d: usize = 0;
    let mut i: usize = 0;
    proof {
        assert(rs@.subrange(0, 0) =~= Seq::<Region>::empty());
    }
    while i < rs.len()
        invariant
            0 <= i <= rs@.len(),
            d == depth(rs@.subrange(0, i as int), x as int),
            d <= i,
        decreases rs@.len() - i,
    {
        proof {
            assert(rs@.subrange(0, i as int + 1).drop_last() =~= rs@.subrange(0, i as int));
        }
        if rs[i].start <= x && x < rs[i].end {
            d = d + 1;
        }
        i = i + 1;
    }
    proof {
        assert(rs@.subrange(0, rs@.len() as int) =~= rs@);
    }
    d
}

proof fn lemma_sum_lengths_prefix(rs: Seq<Region>, i: int)
    requires
        0 <= i <= rs.len(),
        forall|k: int| 0 <= k < rs.len() ==> #[trigger] rs[k].start <= rs[k].end,
    ensures
        0 <= sum_lengths(rs.subrange(0, i)) <= sum_lengths(rs),
    decreases rs.len() - i,
{
    if i < rs.len() {
        lemma_sum_lengths_prefix(rs, i + 1);
        assert(rs.subrange(0, i + 1).drop_last() =~= rs.subrange(0, i));
    } else {
        assert(rs.subrange(0, i) =~= rs);
    }
    lemma_sum_lengths_nonneg(rs.subrange(0, i));
}

proof fn lemma_sum_lengths_nonneg(rs: Seq<Region>)
    requires
        forall|k: int| 0 <= k < rs.len() ==> #[trigger] rs[k].start <= rs[k].end,
    ensures
        sum_lengths(rs) >= 0,
    decreases rs.len(),
{
    if rs.len() > 0 {
        lemma_sum_lengths_nonneg(rs.drop_last());
    }
}

/// How many flags are set.
pub open spec fn count_true(s: Seq<bool>) -> nat
    decreases s.len(),
{
    if s.len() == 0 {
        0
    } else {
        count_true(s.drop_last()) + if s.last() {
            1nat
        } else {
            0nat
        }
    }
}

proof fn lemma_count_true_set(s: Seq<bool>, i: int)
    requires
        0 <= i < s.len(),
        !s[i],
    ensures
        count_true(s.update(i, true)) == count_true(s) + 1,
    decreases s.len(),
{
    let u = s.update(i, true);
    if i == s.len() - 1 {
        assert(u.drop_last() =~= s.drop_last());
    } else {
        assert(u.drop_last() =~= s.drop_last().update(i, true));
        lemma_count_true_set(s.drop_last(), i);
    }
}

proof fn lemma_count_true_none(s: Seq<bool>)
    requires
        forall|q: int| 0 <= q < s.len() ==> !s[q],
    ensures
        count_true(s) == 0,
    decreases s.len(),
{
    if s.len() > 0 {
        lemma_count_true_none(s.drop_last());
    }
}

proof fn lemma_count_true_all(s: Seq<bool>)
    requires
        count_true(s) >= s.len(),
    ensures
        forall|q: int| 0 <= q < s.len() ==> s[q],
    decreases s.len(),
{
    if s.len() > 0 {
        lemma_count_true_le(s.drop_last());
        lemma_count_true_all(s.drop_last());
        assert forall|q: int| 0 <= q < s.len() implies s[q] by {
            if q < s.len() - 1 {
                assert(s[q] == s.drop_last()[q]);
            }
        }
    }
}

proof fn lemma_count_true_le(s: Seq<bool>)
    ensures
        count_true(s) <= s.len(),
    decreases s.len(),
{
    if s.len() > 0 {
        lemma_count_true_le(s.drop_last());
    }
}

/// Non-empty intervals in increasing order with a gap between any two:
/// the form that `merge_regions` gives.
pub open spec fn canonical(rs: Seq<Region>) -> bool {
    &&& forall|i: int| 0 <= i < rs.len() ==> #[trigger] rs[i].start < rs[i].end
    &&& forall|i: int, j: int| 0 <= i < j < rs.len() ==> rs[i].end < rs[j].start
}

/// Two lists in the form that `merge_regions` gives, holding the same
/// positions, are the same list. So the result of `merge_regions` depends
/// only on the positions it holds, and merging it again gives it back.
pub proof fn lemma_canonical_unique(a: Seq<Region>, b: Seq<Region>)
    requires
        canonical(a),
        canonical(b),
        forall|x: int| covered(a, x) == covered(b, x),
    ensures
        a == b,
    decreases a.len() + b.len(),
{
    if a.len() == 0 || b.len() == 0 {
        if a.len() > 0 {
            assert(covered(a, a[0].start as int));
        }
        if b.len() > 0 {
            assert(covered(b, b[0].start as int));
        }
        assert(a =~= b);
    } else {
        let a0 = a[0];
        let b0 = b[0];
        assert(a0.start == b0.start) by {
            assert(covered(a, a0.start as int));
            assert(covered(b, b0.start as int));
            let j = choose|j: int| #![trigger b[j]] 0 <= j < b.len() && b[j].start <= a0.start < b[j].end;
            let i = choose|i: int| #![trigger a[i]] 0 <= i < a.len() && a[i].start <= b0.start < a[i].end;
            if j > 0 {
                assert(b0.end < b[j].start);
            }
            if i > 0 {
                assert(a0.end < a[i].start);
            }
        }
        assert(a0.end == b0.end) by {
            if a0.end < b0.end {
                assert(b0.start <= a0.end < b0.end);
                assert(covered(b, a0.end as int));
                let i = choose|i: int| #![trigger a[i]] 0 <= i < a.len() && a[i].start <= a0.end < a[i].end;
                if i > 0 {
                    assert(a0.end < a[i].start);
                }
            }
            if b0.end < a0.end {
                assert(a0.start <= b0.end < a0.end);
                assert(covered(a, b0.end as int));
                let j = choose|j: int| #![trigger b[j]] 0 <= j < b.len() && b[j].start <= b0.end < b[j].end;
                if j > 0 {
                    assert(b0.end < b[j].start);
                }
            }
        }
        let ta = a.drop_first();
        let tb = b.drop_first();
        assert(canonical(ta)) by {
            assert forall|i: int, j: int| 0 <= i < j < ta.len() implies ta[i].end < ta[j].start by {
                assert(ta[i] == a[i + 1] && ta[j] == a[j + 1]);
            }
            assert forall|i: int| 0 <= i < ta.len() implies #[trigger] ta[i].start < ta[i].end by {
                assert(ta[i] == a[i + 1]);
            }
        }
        assert(canonical(tb)) by {
            assert forall|i: int, j: int| 0 <= i < j < tb.len() implies tb[i].end < tb[j].start by {
                assert(tb[i] == b[i + 1] && tb[j] == b[j + 1]);
            }
            assert forall|i: int| 0 <= i < tb.len() implies #[trigger] tb[i].start < tb[i].end by {
                assert(tb[i] == b[i + 1]);
            }
        }
        assert forall|x: int| covered(ta, x) == covered(tb, x) by {
            lemma_tail_cover(a, x);
            lemma_tail_cover(b, x);
        }
        lemma_canonical_unique(ta, tb);
        assert(a =~= seq![a0] + ta);
        assert(b =~= seq![b0] + tb);
    }
}

proof fn lemma_tail_cover(a: Seq<Region>, x: int)
    requires
        canonical(a),
        a.len() > 0,
    ensures
        covered(a.drop_first(), x) == (covered(a, x) && x >= a[0].end),
{
    let t = a.drop_first();
    if covered(t, x) {
        let i = choose|i: int| #![trigger t[i]] 0 <= i < t.len() && t[i].start <= x < t[i].end;
        assert(t[i] == a[i + 1]);
        assert(a[0].end < a[i + 1].start);
    }
    if covered(a, x) && x >= a[0].end {
        let i = choose|i: int| #![trigger a[i]] 0 <= i < a.len() && a[i].start <= x < a[i].end;
        assert(i > 0);
        assert(t[i - 1] == a[i]);
    }
}

} // verus!
