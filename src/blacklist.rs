use vstd::prelude::*;
use crate::cigar::{qend_spec, qstart_spec, sum_qlen, CigarOp};
use crate::range_identity::{range_identity_spec, RangeIdentity, RangeIdentityCalculator};
use crate::record::AlignmentRecord;

verus! {

/// Query ranges `[start, end)` of the insertion runs at least `thr` long.
pub open spec fn long_ins_regions(ops: Seq<CigarOp>, thr: int) -> Seq<(usize, usize)>
    decreases ops.len(),
{
    if ops.len() == 0 {
        seq![]
    } else {
        let pre = ops.drop_last();
        let op = ops.last();
        let p = sum_qlen(pre);
        if op is Ins && op.spec_len() >= thr {
            long_ins_regions(pre, thr).push((p as usize, (p + op.spec_len()) as usize))
        } else {
            long_ins_regions(pre, thr)
        }
    }
}

/// The insertion scan accepts only `= X I D S` operations.
pub open spec fn ins_scan_ok(ops: Seq<CigarOp>) -> bool {
    forall|i: int|
        0 <= i < ops.len() ==> !(ops[i] is Match || ops[i] is RefSkip || ops[i] is HardClip
            || ops[i] is Pad)
}

/// Is `q` inside one of `regs`?
pub open spec fn in_regions(regs: Seq<(usize, usize)>, q: int) -> bool {
    exists|i: int| #![trigger regs[i]] 0 <= i < regs.len() && regs[i].0 <= q < regs[i].1
}

/// Regions in increasing order, none overlapping, all within `[0, total]`.
pub open spec fn regions_ordered(regs: Seq<(usize, usize)>, total: int) -> bool {
    &&& forall|i: int| #![trigger regs[i]] 0 <= i < regs.len() ==> regs[i].0 <= regs[i].1 <= total
    &&& forall|i: int, j: int| 0 <= i < j < regs.len() ==> regs[i].1 <= regs[j].0
}

pub proof fn lemma_long_ins_regions_ordered(ops: Seq<CigarOp>, thr: int)
    requires
        sum_qlen(ops) <= u32::MAX,
    ensures
        regions_ordered(long_ins_regions(ops, thr), sum_qlen(ops) as int),
    decreases ops.len(),
{
    if ops.len() > 0 {
        lemma_long_ins_regions_ordered(ops.drop_last(), thr);
    }
}

/// Query ranges of insertion runs at least `ins_thr` long, in query order;
/// `None` when the CIGAR holds an `M`, `N`, `H` or `P` operation.
pub fn long_ins_regions_in_query(cigar: &Vec<CigarOp>, ins_thr: usize) -> (r: Option<
    Vec<(usize, usize)>,
>)
    requires
        sum_qlen(cigar@) <= u32::MAX,
    ensures
        r is Some <==> ins_scan_ok(cigar@),
        r is Some ==> r->Some_0@ == long_ins_regions(cigar@, ins_thr as int),
{
    let mut pos: usize = 0;
    let mut regions: Vec<(usize, usize)> = Vec::new();
    let mut i: usize = 0;
    while i < cigar.len()
        invariant
            0 <= i <= cigar@.len(),
            sum_qlen(cigar@) <= u32::MAX,
            pos == sum_qlen(cigar@.subrange(0, i as int)),
            regions@ == long_ins_regions(cigar@.subrange(0, i as int), ins_thr as int),
            ins_scan_ok(cigar@.subrange(0, i as int)),
        decreases cigar@.len() - i,
    {
        let ghost next = cigar@.subrange(0, i as int + 1);
        proof {
            assert(next.drop_last() =~= cigar@.subrange(0, i as int));
            crate::range_identity::lemma_sum_qlen_prefix(cigar@, i as int + 1);
        }
        match cigar[i] {
            CigarOp::SoftClip(n) | CigarOp::Diff(n) | CigarOp::Equal(n) => {
                pos = pos + n as usize;
            },
            CigarOp::Del(_) => {},
            CigarOp::Ins(n) => {
                let n = n as usize;
                if n >= ins_thr {
                    regions.push((pos, pos + n));
                }
                pos = pos + n;
            },
            _ => {
                proof {
                    assert(!ins_scan_ok(cigar@));
                }
                return None;
            },
        }
        proof {
            assert forall|j: int| 0 <= j < next.len() implies !(next[j] is Match || next[j] is RefSkip
                || next[j] is HardClip || next[j] is Pad) by {
                if j < i {
                    assert(next[j] == cigar@.subrange(0, i as int)[j]);
                }
            }
        }
        i = i + 1;
    }
    proof {
        assert(cigar@.subrange(0, cigar@.len() as int) =~= cigar@);
    }
    Some(regions)
}

/// Query ranges of long insertions of one alignment.
pub struct LongInsRegions {
    regions: Vec<(usize, usize)>,
}

impl LongInsRegions {
    pub closed spec fn regions(&self) -> Seq<(usize, usize)> {
        self.regions@
    }

    pub closed spec fn wf(&self) -> bool {
        regions_ordered(self.regions@, usize::MAX as int)
    }

    /// The long insertions (at least `ins_thr` bases) of `cigar`; `None`
    /// where the scan refuses the CIGAR.
    pub fn new(cigar: &Vec<CigarOp>, ins_thr: usize) -> (r: Option<Self>)
        requires
            sum_qlen(cigar@) <= u32::MAX,
        ensures
            r is Some <==> ins_scan_ok(cigar@),
            r is Some ==> r->Some_0.wf() && r->Some_0.regions() == long_ins_regions(
                cigar@,
                ins_thr as int,
            ),
    {
        match long_ins_regions_in_query(cigar, ins_thr) {
            Some(regions) => {
                proof {
                    lemma_long_ins_regions_ordered(cigar@, ins_thr as int);
                }
                Some(LongInsRegions { regions })
            },
            None => None,
        }
    }

    /// Is query offset `pos` inside a long insertion?
    pub fn within(&self, pos: usize) -> (r: bool)
        requires
            self.wf(),
        ensures
            r == in_regions(self.regions(), pos as int),
    {
        let mut lo: usize = 0;
        let mut hi: usize = self.regions.len();
        while lo < hi
            invariant
                0 <= lo <= hi <= self.regions@.len(),
                self.wf(),
                forall|i: int| #![trigger self.regions@[i]] 0 <= i < lo ==> self.regions@[i].1 <= pos,
                forall|i: int| #![trigger self.regions@[i]] hi <= i < self.regions@.len() ==> self.regions@[i].1 > pos,
            decreases hi - lo,
        {
            let mid = lo + (hi - lo) / 2;
            if self.regions[mid].1 <= pos {
                proof {
                    assert forall|i: int| #![trigger self.regions@[i]] 0 <= i < mid + 1 implies self.regions@[i].1 <= pos by {
                        if i < mid {
                            assert(self.regions@[i].1 <= self.regions@[mid as int].0);
                        }
                    }
                }
                lo = mid + 1;
            } else {
                proof {
                    assert forall|i: int| #![trigger self.regions@[i]] mid <= i < self.regions@.len() implies self.regions@[i].1
                        > pos by {
                        if i > mid {
                            assert(self.regions@[mid as int].1 <= self.regions@[i].0);
                        }
                    }
                }
                hi = mid;
            }
        }
        if lo < self.regions.len() && self.regions[lo].0 <= pos {
            true
        } else {
            proof {
                assert forall|i: int| #![trigger self.regions@[i]] 0 <= i < self.regions@.len() implies !(self.regions@[i].0
                    <= pos < self.regions@[i].1) by {
                    if i > lo {
                        assert(self.regions@[lo as int].1 <= self.regions@[i].0);
                    }
                }
            }
            false
        }
    }
}

/// A mask of `len` offsets, set inside any of `regs`.
fn regions_mask(regs: &Vec<(usize, usize)>, len: usize) -> (r: Vec<bool>)
    requires
        forall|i: int| #![trigger regs@[i]] 0 <= i < regs@.len() ==> regs@[i].0 <= regs@[i].1 <= len,
    ensures
        r@.len() == len,
        forall|q: int| 0 <= q < len ==> r@[q] == in_regions(regs@, q),
{
    let mut mask: Vec<bool> = Vec::new();
    let mut k: usize = 0;
    while k < len
        invariant
            0 <= k <= len,
            mask@.len() == k,
            forall|q: int| 0 <= q < k ==> !mask@[q],
        decreases len - k,
    {
        mask.push(false);
        k = k + 1;
    }
    let mut i: usize = 0;
    while i < regs.len()
        invariant
            0 <= i <= regs@.len(),
            mask@.len() == len,
            forall|j: int| #![trigger regs@[j]] 0 <= j < regs@.len() ==> regs@[j].0 <= regs@[j].1 <= len,
            forall|q: int|
                0 <= q < len ==> mask@[q] == exists|j: int|
                    #![trigger regs@[j]]
                    0 <= j < i && regs@[j].0 <= q < regs@[j].1,
        decreases regs@.len() - i,
    {
        let (s, e) = regs[i];
        let mut q: usize = s;
        while q < e
            invariant
                s <= q <= e <= len,
                mask@.len() == len,
                (s, e) == regs@[i as int],
                0 <= i < regs@.len(),
                forall|x: int|
                    0 <= x < len ==> mask@[x] == ((exists|j: int|
                        #![trigger regs@[j]]
                        0 <= j < i && regs@[j].0 <= x < regs@[j].1) || (s <= x < q)),
            decreases e - q,
        {
            mask.set(q, true);
            q = q + 1;
        }
        proof {
            assert forall|x: int| 0 <= x < len implies mask@[x] == exists|j: int|
                #![trigger regs@[j]]
                0 <= j < i + 1 && regs@[j].0 <= x < regs@[j].1 by {
                if s <= x < e {
                    assert(regs@[i as int].0 <= x < regs@[i as int].1);
                }
            }
        }
        i = i + 1;
    }
    mask
}

/// Blacklists every query base of an insertion run at least `ins_thr` long.
#[derive(Clone, Copy, Debug)]
pub struct LongInsBlacklist {
    ins_thr: usize,
}

impl LongInsBlacklist {
    pub closed spec fn spec_ins_thr(&self) -> usize {
        self.ins_thr
    }

    pub fn new(ins_thr: usize) -> (r: Self)
        ensures
            r.spec_ins_thr() == ins_thr,
    {
        LongInsBlacklist { ins_thr }
    }

    /// What `get_blacklist_locus` gives for `rec`.
    pub open spec fn flags(&self, rec: &AlignmentRecord) -> Option<Seq<bool>> {
        let ops = rec.spec_cigar();
        if ins_scan_ok(ops) {
            Some(
                Seq::new(
                    rec.spec_seq().len(),
                    |q: int| in_regions(long_ins_regions(ops, self.spec_ins_thr() as int), q),
                ),
            )
        } else {
            None
        }
    }

    /// One flag per query offset, set inside the long insertions.
    pub fn get_blacklist_locus(&self, rec: &AlignmentRecord) -> (r: Option<Vec<bool>>)
        requires
            rec.wf(),
        ensures
            match r {
                Some(m) => self.flags(rec) == Some(m@),
                None => self.flags(rec) is None,
            },
    {
        match long_ins_regions_in_query(rec.cigar(), self.ins_thr) {
            Some(regions) => {
                proof {
                    lemma_long_ins_regions_ordered(rec.spec_cigar(), self.ins_thr as int);
                }
                let m = regions_mask(&regions, rec.seq_len());
                proof {
                    assert(m@ =~= self.flags(rec)->Some_0);
                }
                Some(m)
            },
            None => None,
        }
    }
}

/// Windows `[start, end)` over `[0, length)`, the first at `start`, each
/// next one `step` further on; an end past `length` is cut to it, and with
/// `drop_last` a window so cut is left out.
pub open spec fn windows_from(start: int, length: int, win: int, step: int, drop_last: bool) -> Seq<
    (usize, usize),
>
    decreases length - start,
{
    if start >= length || step <= 0 || start < 0 {
        seq![]
    } else {
        let end = if start + win < length {
            start + win
        } else {
            length
        };
        let rest = if start + step < length {
            windows_from(start + step, length, win, step, drop_last)
        } else {
            seq![]
        };
        if drop_last && end - start != win {
            rest
        } else {
            seq![(start as usize, end as usize)] + rest
        }
    }
}

/// Overlapping windows of `win_len` over `[0, length)`, each starting
/// `win_len - win_ovlp` after the previous one.
pub fn sliding_window(length: usize, win_len: usize, win_ovlp: usize, drop_last: bool) -> (r: Vec<
    (usize, usize),
>)
    requires
        win_len > win_ovlp,
    ensures
        r@ == windows_from(0, length as int, win_len as int, win_len - win_ovlp, drop_last),
{
    let step = win_len - win_ovlp;
    let mut out: Vec<(usize, usize)> = Vec::new();
    let mut start: usize = 0;
    while start < length
        invariant
            step == win_len - win_ovlp,
            step > 0,
            out@ + windows_from(start as int, length as int, win_len as int, step as int, drop_last)
                == windows_from(0, length as int, win_len as int, step as int, drop_last),
        decreases length - start,
    {
        let end = if win_len < length - start {
            start + win_len
        } else {
            length
        };
        let ghost rest = windows_from(start + step, length as int, win_len as int, step as int, drop_last);
        if !drop_last || end - start == win_len {
            proof {
                assert(out@.push((start, end)) + rest =~= out@ + (seq![(start, end)] + rest));
            }
            out.push((start, end));
        }
        if step >= length - start {
            proof {
                assert(rest =~= Seq::<(usize, usize)>::empty());
                assert(out@ + rest =~= out@);
            }
            start = length;
        } else {
            start = start + step;
        }
    }
    proof {
        assert(out@ + windows_from(start as int, length as int, win_len as int, step as int, drop_last)
            =~= out@);
    }
    out
}

/// Is `ri` a window worth flagging: realized on more than half of `win`
/// bases, with identity `eq_len / max(1, span_len)` below `num / den`?
pub open spec fn low_identity_hit(ri: RangeIdentity, num: int, den: int, win: int) -> bool {
    &&& ri.end - ri.start > win / 2
    &&& ri.eq_len * den < num * (if ri.span_len == 0 {
        1
    } else {
        ri.span_len as int
    })
}

/// Blacklists query ranges whose identity falls below a threshold.
#[derive(Clone, Copy, Debug)]
pub struct LowIdentityBlacklist {
    identity_num: u32,
    identity_den: u32,
    win_size: usize,
    win_ovlp: usize,
}

impl LowIdentityBlacklist {
    pub closed spec fn spec_num(&self) -> u32 {
        self.identity_num
    }

    pub closed spec fn spec_den(&self) -> u32 {
        self.identity_den
    }

    pub closed spec fn spec_win_size(&self) -> usize {
        self.win_size
    }

    pub closed spec fn spec_win_ovlp(&self) -> usize {
        self.win_ovlp
    }

    pub open spec fn wf(&self) -> bool {
        self.spec_win_size() > self.spec_win_ovlp() && self.spec_den() > 0
    }

    /// Threshold `identity_num / identity_den`, windows of `win_size`
    /// overlapping by `win_ovlp`; a window must be longer than its overlap.
    pub fn new(identity_num: u32, identity_den: u32, win_size: usize, win_ovlp: usize) -> (r: Self)
        requires
            win_size > win_ovlp,
            identity_den > 0,
        ensures
            r.wf(),
            r.spec_num() == identity_num,
            r.spec_den() == identity_den,
            r.spec_win_size() == win_size,
            r.spec_win_ovlp() == win_ovlp,
    {
        LowIdentityBlacklist { identity_num, identity_den, win_size, win_ovlp }
    }

    /// The windows that the blacklist examines on a query of `len` bases.
    pub open spec fn windows(&self, len: int) -> Seq<(usize, usize)> {
        windows_from(
            0,
            len,
            self.spec_win_size() as int,
            self.spec_win_size() - self.spec_win_ovlp(),
            true,
        )
    }

    /// The identity of window `w` of an alignment.
    pub open spec fn window_identity(ops: Seq<CigarOp>, w: (usize, usize)) -> Option<RangeIdentity> {
        range_identity_spec(
            ops,
            qstart_spec(ops) as int,
            qend_spec(ops) as int,
            w.0 as u32 as int,
            w.1 as u32 as int,
        )
    }

    /// Is `q` inside a flagged window among the first `k`?
    pub open spec fn flagged_by(&self, ops: Seq<CigarOp>, ws: Seq<(usize, usize)>, k: int, q: int) -> bool {
        exists|j: int|
            #![trigger ws[j]]
            0 <= j < k && {
                let ri = Self::window_identity(ops, ws[j])->Some_0;
                &&& low_identity_hit(
                    ri,
                    self.spec_num() as int,
                    self.spec_den() as int,
                    self.spec_win_size() as int,
                )
                &&& ri.start <= q < ri.end
            }
    }

    /// What `get_blacklist_locus` gives for `rec`.
    pub open spec fn flags(&self, rec: &AlignmentRecord) -> Option<Seq<bool>> {
        let ops = rec.spec_cigar();
        let ws = self.windows(rec.spec_seq().len() as int);
        if ops.len() == 0 || exists|j: int|
            #![trigger ws[j]]
            0 <= j < ws.len() && Self::window_identity(ops, ws[j]) is None {
            None
        } else {
            Some(Seq::new(rec.spec_seq().len(), |q: int| self.flagged_by(ops, ws, ws.len() as int, q)))
        }
    }

    /// One flag per query offset, set inside every window of low identity.
    pub fn get_blacklist_locus(&self, rec: &AlignmentRecord) -> (r: Option<Vec<bool>>)
        requires
            rec.wf(),
            self.wf(),
        ensures
            match r {
                Some(m) => self.flags(rec) == Some(m@),
                None => self.flags(rec) is None,
            },
    {
        let ghost ops = rec.spec_cigar();
        if rec.cigar().len() == 0 {
            return None;
        }
        let calc = RangeIdentityCalculator::new(rec.cigar());
        let len = rec.seq_len();
        let windows = sliding_window(len, self.win_size, self.win_ovlp, true);
        let ghost ws = windows@;
        let mut mask: Vec<bool> = Vec::new();
        let mut k: usize = 0;
        while k < len
            invariant
                0 <= k <= len,
                mask@.len() == k,
                forall|q: int| 0 <= q < k ==> !mask@[q],
            decreases len - k,
        {
            mask.push(false);
            k = k + 1;
        }
        proof {
            lemma_windows_within(0, len as int, self.win_size as int, (self.win_size - self.win_ovlp) as int);
        }
        let mut i: usize = 0;
        while i < windows.len()
            invariant
                0 <= i <= ws.len(),
                ws == windows@,
                ws == self.windows(len as int),
                len == rec.spec_seq().len(),
                len <= u32::MAX,
                rec.wf(),
                self.wf(),
                ops == rec.spec_cigar(),
                ops == calc.ops(),
                calc.wf(),
                ops.len() > 0,
                mask@.len() == len,
                forall|j: int| #![trigger ws[j]] 0 <= j < ws.len() ==> ws[j].0 <= ws[j].1 <= len,
                forall|j: int| 0 <= j < i ==> Self::window_identity(ops, ws[j]) is Some,
                forall|q: int| 0 <= q < len ==> mask@[q] == self.flagged_by(ops, ws, i as int, q),
            decreases ws.len() - i,
        {
            let (ws0, we0) = windows[i];
            if !calc.can_compute(ws0 as u32, we0 as u32) {
                proof {
                    assert(Self::window_identity(ops, ws[i as int]) is None);
                }
                return None;
            }
            let ri = calc.compute_range_identity(ws0 as u32, we0 as u32);
            proof {
                crate::cigar::lemma_sum_qlen_bounds(ops);
            }
            let span: u128 = if ri.span_len == 0 {
                1
            } else {
                ri.span_len as u128
            };
            let eq = ri.eq_len as u128;
            let den = self.identity_den as u128;
            let num = self.identity_num as u128;
            proof {
                assert(eq * den <= 18446744073709551615u128 * 4294967295u128) by (nonlinear_arith)
                    requires
                        eq <= 18446744073709551615u128,
                        den <= 4294967295u128,
                ;
                assert(num * span <= 4294967295u128 * 18446744073709551615u128) by (nonlinear_arith)
                    requires
                        span <= 18446744073709551615u128,
                        num <= 4294967295u128,
                ;
            }
            let hit = (ri.end - ri.start) as usize > self.win_size / 2 && eq * den < num * span;
            if hit {
                let mut q: u32 = ri.start;
                while q < ri.end
                    invariant
                        ri.start <= q <= ri.end <= len,
                        mask@.len() == len,
                        forall|x: int|
                            0 <= x < len ==> mask@[x] == (self.flagged_by(ops, ws, i as int, x) || (
                            ri.start <= x < q)),
                    decreases ri.end - q,
                {
                    mask.set(q as usize, true);
                    q = q + 1;
                }
            }
            proof {
                assert(Self::window_identity(ops, ws[i as int]) == Some(ri));
                assert forall|x: int| 0 <= x < len implies mask@[x] == self.flagged_by(
                    ops,
                    ws,
                    i + 1,
                    x,
                ) by {
                    if hit && ri.start <= x < ri.end {
                        assert(low_identity_hit(ri, self.identity_num as int, self.identity_den as int, self.win_size as int));
                    }
                    if self.flagged_by(ops, ws, i + 1, x) {
                        let j = choose|j: int|
                            #![trigger ws[j]]
                            0 <= j < i + 1 && {
                                let r2 = Self::window_identity(ops, ws[j])->Some_0;
                                &&& low_identity_hit(
                                    r2,
                                    self.spec_num() as int,
                                    self.spec_den() as int,
                                    self.spec_win_size() as int,
                                )
                                &&& r2.start <= x < r2.end
                            };
                        if j < i {
                            assert(self.flagged_by(ops, ws, i as int, x));
                        }
                    }
                }
            }
            i = i + 1;
        }
        proof {
            assert(mask@ =~= self.flags(rec)->Some_0);
        }
        Some(mask)
    }
}

proof fn lemma_windows_within(start: int, length: int, win: int, step: int)
    requires
        step > 0,
        start >= 0,
        win >= 0,
        length <= usize::MAX,
    ensures
        ({
            let ws = windows_from(start, length, win, step, true);
            forall|j: int| #![trigger ws[j]] 0 <= j < ws.len() ==> ws[j].0 <= ws[j].1 <= length
        }),
    decreases length - start,
{
    if start < length {
        if start + step < length {
            lemma_windows_within(start + step, length, win, step);
        }
        let ws = windows_from(start, length, win, step, true);
        let rest = windows_from(start + step, length, win, step, true);
        assert forall|j: int| #![trigger ws[j]] 0 <= j < ws.len() implies ws[j].0 <= ws[j].1 <= length by {
            if ws.len() > rest.len() {
                if j > 0 {
                    assert(ws[j] == rest[j - 1]);
                }
            } else {
                assert(ws[j] == rest[j]);
            }
        }
    }
}

/// A rule that marks query offsets of a record as untrustworthy.
#[derive(Clone, Copy, Debug)]
pub enum QueryLocusBlacklist {
    LongIns(LongInsBlacklist),
    LowIdentity(LowIdentityBlacklist),
}

impl QueryLocusBlacklist {
    pub open spec fn wf(&self) -> bool {
        match self {
            QueryLocusBlacklist::LongIns(_) => true,
            QueryLocusBlacklist::LowIdentity(b) => b.wf(),
        }
    }

    /// What `get_blacklist_locus` gives for `rec`.
    pub open spec fn flags(&self, rec: &AlignmentRecord) -> Option<Seq<bool>> {
        match self {
            QueryLocusBlacklist::LongIns(b) => b.flags(rec),
            QueryLocusBlacklist::LowIdentity(b) => b.flags(rec),
        }
    }

    /// One flag per query offset of `rec`: is it blacklisted by this rule?
    pub fn get_blacklist_locus(&self, rec: &AlignmentRecord) -> (r: Option<Vec<bool>>)
        requires
            rec.wf(),
            self.wf(),
        ensures
            match r {
                Some(m) => self.flags(rec) == Some(m@),
                None => self.flags(rec) is None,
            },
    {
        match self {
            QueryLocusBlacklist::LongIns(b) => b.get_blacklist_locus(rec),
            QueryLocusBlacklist::LowIdentity(b) => b.get_blacklist_locus(rec),
        }
    }
}

/// Every rule in `ps` is usable.
pub open spec fn policies_wf(ps: Seq<QueryLocusBlacklist>) -> bool {
    forall|i: int| 0 <= i < ps.len() ==> #[trigger] ps[i].wf()
}

/// The union of the flags of all rules in `ps`; `None` if a rule fails.
pub open spec fn union_flags(ps: Seq<QueryLocusBlacklist>, rec: &AlignmentRecord) -> Option<Seq<bool>>
    decreases ps.len(),
{
    if ps.len() == 0 {
        Some(Seq::new(rec.spec_seq().len(), |q: int| false))
    } else {
        match (union_flags(ps.drop_last(), rec), ps.last().flags(rec)) {
            (Some(a), Some(b)) => Some(Seq::new(rec.spec_seq().len(), |q: int| a[q] || b[q])),
            _ => None,
        }
    }
}

/// The query offsets of `rec` that any rule of `policies` blacklists, as one
/// flag per offset; no rules, no flags set.
pub fn get_query_locus_blacklist(rec: &AlignmentRecord, policies: &Vec<QueryLocusBlacklist>) -> (r:
    Option<Vec<bool>>)
    requires
        rec.wf(),
        policies_wf(policies@),
    ensures
        match r {
            Some(m) => union_flags(policies@, rec) == Some(m@),
            None => union_flags(policies@, rec) is None,
        },
{
    let len = rec.seq_len();
    let mut mask: Vec<bool> = Vec::new();
    let mut k: usize = 0;
    while k < len
        invariant
            0 <= k <= len,
            mask@.len() == k,
            forall|q: int| 0 <= q < k ==> !mask@[q],
        decreases len - k,
    {
        mask.push(false);
        k = k + 1;
    }
    proof {
        assert(policies@.subrange(0, 0) =~= Seq::<QueryLocusBlacklist>::empty());
        assert(mask@ =~= union_flags(policies@.subrange(0, 0), rec)->Some_0);
    }
    let mut i: usize = 0;
    while i < policies.len()
        invariant
            0 <= i <= policies@.len(),
            rec.wf(),
            policies_wf(policies@),
            len == rec.spec_seq().len(),
            union_flags(policies@.subrange(0, i as int), rec) == Some(mask@),
        decreases policies@.len() - i,
    {
        let ghost next = policies@.subrange(0, i as int + 1);
        proof {
            assert(next.drop_last() =~= policies@.subrange(0, i as int));
            assert(policies@[i as int].wf());
        }
        let flags = match policies[i].get_blacklist_locus(rec) {
            Some(f) => f,
            None => {
                proof {
                    lemma_union_none(policies@, rec, i as int + 1);
                    assert(policies@.subrange(0, policies@.len() as int) =~= policies@);
                }
                return None;
            },
        };
        mask = or_flags(&mask, &flags);
        proof {
            assert(mask@ =~= union_flags(next, rec)->Some_0);
        }
        i = i + 1;
    }
    proof {
        assert(policies@.subrange(0, policies@.len() as int) =~= policies@);
    }
    Some(mask)
}

/// Flags set in `a` or in `b`.
fn or_flags(a: &Vec<bool>, b: &Vec<bool>) -> (r: Vec<bool>)
    requires
        a@.len() == b@.len(),
    ensures
        r@ == Seq::new(a@.len(), |x: int| a@[x] || b@[x]),
{
    let len = a.len();
    let mut out: Vec<bool> = Vec::new();
    let mut q: usize = 0;
    while q < len
        invariant
            0 <= q <= len,
            len == a@.len(),
            len == b@.len(),
            out@ =~= Seq::new(q as nat, |x: int| a@[x] || b@[x]),
        decreases len - q,
    {
        out.push(a[q] || b[q]);
        q = q + 1;
    }
    out
}

proof fn lemma_union_none(ps: Seq<QueryLocusBlacklist>, rec: &AlignmentRecord, k: int)
    requires
        0 < k <= ps.len(),
        union_flags(ps.subrange(0, k), rec) is None,
    ensures
        union_flags(ps.subrange(0, ps.len() as int), rec) is None,
    decreases ps.len() - k,
{
    if k < ps.len() {
        assert(ps.subrange(0, k + 1).drop_last() =~= ps.subrange(0, k));
        lemma_union_none(ps, rec, k + 1);
    }
}

} // verus!
