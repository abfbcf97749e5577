use vstd::prelude::*;
use crate::cigar::{qend_spec, sum_qlen, sum_rlen};
use crate::record::{aligned_pairs, AlignedPair, AlignmentRecord};

verus! {

/// Where a position lies relative to an interval `[start, end)`.
#[derive(Clone, Copy, Debug, PartialEq, Eq, Structural)]
pub enum PosRelation {
    Left,
    Right,
    Middle,
}

pub open spec fn relation_spec(seb: (usize, usize, u8), pos: usize) -> PosRelation {
    if pos < seb.0 {
        PosRelation::Left
    } else if pos >= seb.1 {
        PosRelation::Right
    } else {
        PosRelation::Middle
    }
}

/// `Left` before `seb`, `Right` at or after its end, `Middle` inside.
pub fn position_relation(seb: &(usize, usize, u8), pos: usize) -> (r: PosRelation)
    ensures
        r == relation_spec(*seb, pos),
{
    if pos < seb.0 {
        PosRelation::Left
    } else if pos >= seb.1 {
        PosRelation::Right
    } else {
        PosRelation::Middle
    }
}

/// The first interval from `cur_idx` on that `cur_pos` does not lie past.
pub fn move_poly_idx(ref_poly_region: &Vec<(usize, usize, u8)>, cur_idx: usize, cur_pos: usize) -> (r:
    Option<usize>)
    ensures
        match r {
            Some(i) => cur_idx <= i < ref_poly_region@.len() && relation_spec(
                ref_poly_region@[i as int],
                cur_pos,
            ) != PosRelation::Right && forall|j: int|
                cur_idx <= j < i ==> relation_spec(#[trigger] ref_poly_region@[j], cur_pos)
                    == PosRelation::Right,
            None => forall|j: int|
                cur_idx <= j < ref_poly_region@.len() ==> relation_spec(
                    #[trigger] ref_poly_region@[j],
                    cur_pos,
                ) == PosRelation::Right,
        },
{
    let mut idx = cur_idx;
    while idx < ref_poly_region.len()
        invariant
            cur_idx <= idx,
            forall|j: int|
                cur_idx <= j < idx ==> relation_spec(#[trigger] ref_poly_region@[j], cur_pos)
                    == PosRelation::Right,
        decreases ref_poly_region@.len() - idx,
    {
        match position_relation(&ref_poly_region[idx], cur_pos) {
            PosRelation::Left => return Some(idx),
            PosRelation::Middle => return Some(idx),
            PosRelation::Right => {},
        }
        idx = idx + 1;
    }
    None
}

/// Runs of one repeated base, at least two long, as `(start, end, base)`,
/// of `s` from index `i` on, where the current run began at `start`.
pub open spec fn runs_from(s: Seq<u8>, start: int, i: int) -> Seq<(usize, usize, u8)>
    decreases s.len() - i,
{
    if i >= s.len() || i <= start || start < 0 {
        if 0 <= start < s.len() && s.len() - start > 1 {
            seq![(start as usize, s.len() as usize, s[start])]
        } else {
            seq![]
        }
    } else if s[i] != s[start] {
        let rest = runs_from(s, i, i + 1);
        if i - start > 1 {
            seq![(start as usize, i as usize, s[start])] + rest
        } else {
            rest
        }
    } else {
        runs_from(s, start, i + 1)
    }
}

/// Runs of one repeated base, at least two long, as `(start, end, base)`
/// in order.
pub open spec fn poly_n_regions(s: Seq<u8>) -> Seq<(usize, usize, u8)> {
    if s.len() == 0 {
        seq![]
    } else {
        runs_from(s, 0, 1)
    }
}

/// Homopolymer runs (a base repeated at least twice) of `sequence`.
pub fn find_poly_n_regions(sequence: &[u8]) -> (r: Vec<(usize, usize, u8)>)
    ensures
        r@ == poly_n_regions(sequence@),
{
    let n = sequence.len();
    let mut regions: Vec<(usize, usize, u8)> = Vec::new();
    if n == 0 {
        return regions;
    }
    let mut start: usize = 0;
    let mut pre_base = sequence[0];
    let mut i: usize = 1;
    while i < n
        invariant
            n == sequence@.len(),
            0 <= start < i <= n,
            pre_base == sequence@[start as int],
            regions@ + runs_from(sequence@, start as int, i as int) == poly_n_regions(sequence@),
        decreases n - i,
    {
        let cur_base = sequence[i];
        if cur_base != pre_base {
            if i - start > 1 {
                proof {
                    assert(regions@.push((start, i, pre_base)) + runs_from(sequence@, i as int, i + 1)
                        =~= regions@ + runs_from(sequence@, start as int, i as int));
                }
                regions.push((start, i, pre_base));
            }
            start = i;
            pre_base = cur_base;
        }
        i = i + 1;
    }
    if n - start > 1 {
        proof {
            assert(regions@.push((start, n, pre_base)) =~= regions@ + runs_from(sequence@, start as int, i as int));
        }
        regions.push((start, n, pre_base));
    } else {
        proof {
            assert(regions@ =~= regions@ + runs_from(sequence@, start as int, i as int));
        }
    }
    regions
}

/// How many bytes of `s` equal `b`.
pub open spec fn count_byte(s: Seq<u8>, b: u8) -> nat
    decreases s.len(),
{
    if s.len() == 0 {
        0
    } else {
        count_byte(s.drop_last(), b) + if s.last() == b {
            1nat
        } else {
            0nat
        }
    }
}

/// What a read shows at one homopolymer run of the reference.
#[derive(Debug, PartialEq, Eq)]
pub struct RefPolyLocusInfo {
    pub rstart: usize,
    pub rend: usize,
    pub qstart: usize,
    pub qend: usize,
    pub ref_base: u8,
    pub ref_repeats: usize,
    pub query_repeats: usize,
    pub qseq: Vec<u8>,
    pub query_clean: bool,
}

impl RefPolyLocusInfo {
    /// Counts the bases of `qseq` equal to the run's base; the read is clean
    /// where all of them are.
    pub fn new(
        rstart: usize,
        rend: usize,
        qstart: usize,
        qend: usize,
        ref_base: u8,
        ref_repeats: usize,
        qseq: Vec<u8>,
    ) -> (r: Self)
        ensures
            r.rstart == rstart && r.rend == rend && r.qstart == qstart && r.qend == qend,
            r.ref_base == ref_base && r.ref_repeats == ref_repeats,
            r.qseq@ == qseq@,
            r.query_repeats == count_byte(qseq@, ref_base),
            r.query_clean == (count_byte(qseq@, ref_base) == qseq@.len()),
    {
        let mut cnt: usize = 0;
        let mut i: usize = 0;
        proof {
            assert(qseq@.subrange(0, 0) =~= Seq::<u8>::empty());
        }
        while i < qseq.len()
            invariant
                0 <= i <= qseq@.len(),
                cnt == count_byte(qseq@.subrange(0, i as int), ref_base),
                cnt <= i,
            decreases qseq@.len() - i,
        {
            proof {
                assert(qseq@.subrange(0, i as int + 1).drop_last() =~= qseq@.subrange(0, i as int));
            }
            if qseq[i] == ref_base {
                cnt = cnt + 1;
            }
            i = i + 1;
        }
        proof {
            assert(qseq@.subrange(0, qseq@.len() as int) =~= qseq@);
        }
        let query_clean = cnt == qseq.len();
        Self {
            rstart,
            rend,
            qstart,
            qend,
            ref_base,
            ref_repeats,
            query_repeats: cnt,
            qseq,
            query_clean,
        }
    }
}

/// A homopolymer locus as the walk records it: reference run `[rstart,
/// rend)`, query range `[qstart, qend)`, the run's base, its length, and the
/// query bases read over it.
pub type PolyLocusView = (usize, usize, usize, usize, u8, usize, Seq<u8>);

/// Where the walk over an alignment stands: last reference position and
/// query offset seen, the current run, the query bases read over it, the
/// loci finished, and whether the walk has ended.
pub type PolyState = (Option<u64>, Option<u64>, int, Seq<u8>, Seq<PolyLocusView>, bool);

/// `qp` with the query base of `q`, where the column has one.
pub open spec fn push_base(qp: Seq<u8>, seq: Seq<u8>, q: Option<u64>) -> Seq<u8> {
    if q is Some {
        qp.push(seq[q->0 as int])
    } else {
        qp
    }
}

/// One column of the walk over an alignment and the reference runs.
pub open spec fn poly_step(
    regions: Seq<(usize, usize, u8)>,
    seq: Seq<u8>,
    ref_start: int,
    ref_end: int,
    query_end: int,
    st: PolyState,
    pair: AlignedPair,
) -> PolyState {
    let (rc0, qc0, idx, qp, infos, stopped) = st;
    let q = pair.0;
    let r = pair.1;
    let qcur = if q is Some {
        q
    } else {
        qc0
    };
    let rcur = if r is Some {
        r
    } else {
        rc0
    };
    if stopped {
        st
    } else if rcur is None || rcur->0 < ref_start {
        (rcur, qcur, idx, qp, infos, false)
    } else if rcur->0 >= ref_end {
        (rcur, qcur, idx, qp, infos, true)
    } else if qcur is None {
        (rcur, qcur, idx, qp, infos, false)
    } else if qcur->0 >= query_end {
        (rcur, qcur, idx, qp, infos, true)
    } else {
        let reg = regions[idx];
        let finish = r is Some && r->0 + 1 == reg.1;
        let qp_f = push_base(qp, seq, q);
        let qend = qcur->0 + 1;
        let qstart = if qend >= qp_f.len() {
            qend - qp_f.len()
        } else {
            0
        };
        let idx1 = if finish {
            idx + 1
        } else {
            idx
        };
        let infos1 = if finish {
            infos.push(
                (
                    reg.0,
                    reg.1,
                    qstart as usize,
                    qend as usize,
                    reg.2,
                    (reg.1 - reg.0) as usize,
                    qp_f,
                ),
            )
        } else {
            infos
        };
        let qp1 = if finish {
            seq![]
        } else {
            qp
        };
        if finish && idx1 >= regions.len() {
            (rcur, qcur, idx1, qp1, infos1, true)
        } else {
            let cur = regions[idx1];
            let reached = if r is Some {
                r->0 >= cur.0
            } else {
                rcur->0 + 1 >= cur.0
            };
            if reached {
                (rcur, qcur, idx1, push_base(qp1, seq, q), infos1, false)
            } else {
                (rcur, qcur, idx1, qp1, infos1, false)
            }
        }
    }
}

pub open spec fn poly_walk(
    regions: Seq<(usize, usize, u8)>,
    seq: Seq<u8>,
    ref_start: int,
    ref_end: int,
    query_end: int,
    st0: PolyState,
    pairs: Seq<AlignedPair>,
) -> PolyState
    decreases pairs.len(),
{
    if pairs.len() == 0 {
        st0
    } else {
        poly_step(
            regions,
            seq,
            ref_start,
            ref_end,
            query_end,
            poly_walk(regions, seq, ref_start, ref_end, query_end, st0, pairs.drop_last()),
            pairs.last(),
        )
    }
}

/// The run that the walk over an alignment starting at `ref_start` begins
/// with: the first run not wholly before `ref_start`, or the one after it
/// where `ref_start` lies inside it past its first base.
pub open spec fn first_run(regions: Seq<(usize, usize, u8)>, ref_start: int) -> Option<int> {
    if exists|i: int| 0 <= i < regions.len() && relation_spec(#[trigger] regions[i], ref_start as usize) != PosRelation::Right {
        let i = choose|i: int|
            0 <= i < regions.len() && relation_spec(#[trigger] regions[i], ref_start as usize)
                != PosRelation::Right && forall|j: int|
                0 <= j < i ==> relation_spec(#[trigger] regions[j], ref_start as usize)
                    == PosRelation::Right;
        Some(
            if ref_start > regions[i].0 {
                i + 1
            } else {
                i
            },
        )
    } else {
        None
    }
}

impl RefPolyLocusInfo {
    pub open spec fn view_tuple(&self) -> PolyLocusView {
        (self.rstart, self.rend, self.qstart, self.qend, self.ref_base, self.ref_repeats, self.qseq@)
    }
}

fn copy_bytes(v: &Vec<u8>) -> (r: Vec<u8>)
    ensures
        r@ == v@,
{
    let mut out: Vec<u8> = Vec::new();
    let mut i: usize = 0;
    while i < v.len()
        invariant
            0 <= i <= v@.len(),
            out@ == v@.subrange(0, i as int),
        decreases v@.len() - i,
    {
        out.push(v[i]);
        proof {
            assert(out@ =~= v@.subrange(0, i as int + 1));
        }
        i = i + 1;
    }
    proof {
        assert(v@.subrange(0, v@.len() as int) =~= v@);
    }
    out
}

/// The exec state of the walk over an alignment and the reference runs.
pub struct PolyWalk {
    rcur: Option<u64>,
    qcur: Option<u64>,
    idx: usize,
    qp: Vec<u8>,
    infos: Vec<RefPolyLocusInfo>,
    stopped: bool,
}

pub open spec fn infos_view(infos: Seq<RefPolyLocusInfo>) -> Seq<PolyLocusView> {
    Seq::new(infos.len(), |i: int| infos[i].view_tuple())
}

impl PolyWalk {
    pub closed spec fn view_state(&self) -> PolyState {
        (self.rcur, self.qcur, self.idx as int, self.qp@, infos_view(self.infos@), self.stopped)
    }

    pub closed spec fn spec_idx(&self) -> int {
        self.idx as int
    }

    /// One column of the walk.
    #[verifier::rlimit(60)]
    fn step(
        &mut self,
        regions: &Vec<(usize, usize, u8)>,
        seq: &Vec<u8>,
        ref_start: u64,
        ref_end: u64,
        query_end: u64,
        pair: AlignedPair,
    )
        requires
            !old(self).view_state().5,
            0 <= old(self).spec_idx() < regions@.len(),
            pair.0 is Some ==> pair.0->0 < seq@.len(),
            query_end <= u32::MAX,
            forall|k: int| 0 <= k < regions@.len() ==> #[trigger] regions@[k].0 <= regions@[k].1,
        ensures
            final(self).view_state() == poly_step(
                regions@,
                seq@,
                ref_start as int,
                ref_end as int,
                query_end as int,
                old(self).view_state(),
                pair,
            ),
            !final(self).view_state().5 ==> 0 <= final(self).spec_idx() < regions@.len(),
    {
        let nreg = regions.len();
        let (q, r) = pair;
        if q.is_some() {
            self.qcur = q;
        }
        if r.is_some() {
            self.rcur = r;
        }
        let rc = match self.rcur {
            None => {
                return;
            },
            Some(v) => v,
        };
        if rc < ref_start {
            return;
        }
        if rc >= ref_end {
            self.stopped = true;
            return;
        }
        let qc = match self.qcur {
            None => {
                return;
            },
            Some(v) => v,
        };
        if qc >= query_end {
            self.stopped = true;
            return;
        }
        let reg = regions[self.idx];
        let finish = match r {
            Some(rp) => rp as u128 + 1 == reg.1 as u128,
            None => false,
        };
        let ghost qp0 = self.qp@;
        let ghost infos0 = self.infos@;
        if finish {
            if let Some(qp_) = q {
                self.qp.push(seq[qp_ as usize]);
            }
            let qend = qc + 1;
            let qstart = if qend >= self.qp.len() as u64 {
                qend - self.qp.len() as u64
            } else {
                0
            };
            let done = copy_bytes(&self.qp);
            proof {
                assert(done@ == push_base(qp0, seq@, q));
            }
            self.qp = Vec::new();
            let info = RefPolyLocusInfo::new(
                reg.0,
                reg.1,
                qstart as usize,
                qend as usize,
                reg.2,
                reg.1 - reg.0,
                done,
            );
            proof {
                let qp_f = push_base(qp0, seq@, q);
                assert(done@ == qp_f);
                let qend_i = qc + 1;
                let qstart_i = if qend_i >= qp_f.len() { qend_i - qp_f.len() } else { 0 };
                assert(qstart as int == qstart_i);
                assert(info.view_tuple() == (reg.0, reg.1, qstart_i as usize, qend_i as usize, reg.2, (reg.1 - reg.0) as usize, qp_f));
            }
            self.infos.push(info);
            proof {
                assert(infos_view(self.infos@) =~= infos_view(infos0).push(info.view_tuple()));
            }
            self.idx = self.idx + 1;
            if self.idx >= nreg {
                self.stopped = true;
                return;
            }
        }
        let cur = regions[self.idx];
        let reached = match r {
            Some(rp) => rp >= cur.0 as u64,
            None => rc as u128 + 1 >= cur.0 as u128,
        };
        if reached {
            if let Some(qp_) = q {
                self.qp.push(seq[qp_ as usize]);
            }
        }
    }
}

/// What the read shows at each homopolymer run of the reference (runs
/// `(start, end, base)`, sorted) that the alignment covers: the query range
/// and bases aligned over the run. `None` where no run lies at or after the
/// alignment start.
#[verifier::rlimit(60)]
pub fn extract_poly_locus_info_from_record(
    record: &AlignmentRecord,
    ref_poly_region: &Vec<(usize, usize, u8)>,
) -> (r: Option<Vec<RefPolyLocusInfo>>)
    requires
        record.wf(),
        forall|i: int| 0 <= i < ref_poly_region@.len() ==> #[trigger] ref_poly_region@[i].0 <= ref_poly_region@[i].1,
    ensures
        ({
            let regions = ref_poly_region@;
            let ops = record.spec_cigar();
            let start = record.spec_pos();
            match first_run(regions, start) {
                None => r is None,
                Some(idx0) => if idx0 >= regions.len() {
                    r is None
                } else {
                    let w = poly_walk(
                        regions,
                        record.spec_seq(),
                        start,
                        start + sum_rlen(ops),
                        qend_spec(ops) as int,
                        (None, None, idx0, seq![], seq![], false),
                        aligned_pairs(ops, start),
                    );
                    r is Some && infos_view(r->Some_0@) == w.4
                },
            }
        }),
{
    let ref_start = record.reference_start();
    let ref_end = record.reference_end();
    let query_end = record.query_alignment_end();
    let seq = record.seq();
    let nreg = ref_poly_region.len();
    let first = move_poly_idx(ref_poly_region, 0, ref_start as usize);
    let idx: usize = match first {
        Some(i) => {
            proof {
                lemma_first_run(ref_poly_region@, ref_start as int, i as int);
            }
            if ref_start > ref_poly_region[i].0 as u64 {
                i + 1
            } else {
                i
            }
        },
        None => {
            return None;
        },
    };
    if idx >= nreg {
        return None;
    }
    let pairs = record.aligned_pairs_full();
    proof {
        crate::cigar::lemma_sum_qlen_bounds(record.spec_cigar());
        crate::plp::lemma_pairs_bounds(record.spec_cigar(), record.spec_pos());
        assert(pairs@.subrange(0, 0) =~= Seq::<AlignedPair>::empty());
        assert(infos_view(Seq::<RefPolyLocusInfo>::empty()) =~= Seq::<PolyLocusView>::empty());
        assert(pairs@.subrange(0, pairs@.len() as int) =~= pairs@);
    }
    let ghost st0: PolyState = (None, None, idx as int, seq![], seq![], false);
    let mut w = PolyWalk { rcur: None, qcur: None, idx, qp: Vec::new(), infos: Vec::new(), stopped: false };
    let mut i: usize = 0;
    while i < pairs.len()
        invariant
            0 <= i <= pairs@.len(),
            pairs@.subrange(0, pairs@.len() as int) == pairs@,
            seq@ == record.spec_seq(),
            seq@.len() == sum_qlen(record.spec_cigar()),
            pairs@ == aligned_pairs(record.spec_cigar(), record.spec_pos()),
            forall|k: int|
                0 <= k < pairs@.len() ==> {
                    let p = #[trigger] pairs@[k];
                    &&& p.0 is Some ==> p.0->0 < sum_qlen(record.spec_cigar())
                },
            forall|k: int| 0 <= k < ref_poly_region@.len() ==> #[trigger] ref_poly_region@[k].0 <= ref_poly_region@[k].1,
            w.view_state() == poly_walk(
                ref_poly_region@,
                seq@,
                ref_start as int,
                ref_end as int,
                query_end as int,
                st0,
                pairs@.subrange(0, i as int),
            ),
            query_end <= u32::MAX,
            !w.view_state().5 ==> 0 <= w.spec_idx() < ref_poly_region@.len(),
        ensures
            w.view_state() == poly_walk(
                ref_poly_region@,
                seq@,
                ref_start as int,
                ref_end as int,
                query_end as int,
                st0,
                pairs@,
            ),
        decreases pairs@.len() - i,
    {
        let ghost prefix = pairs@.subrange(0, i as int + 1);
        proof {
            assert(prefix.drop_last() =~= pairs@.subrange(0, i as int));
            assert(prefix.last() == pairs@[i as int]);
        }
        if w.stopped {
            proof {
                lemma_poly_stops(ref_poly_region@, seq@, ref_start as int, ref_end as int, query_end as int,
                    st0, pairs@, i as int);
                assert(pairs@.subrange(0, pairs@.len() as int) =~= pairs@);
            }
            break;
        }
        w.step(ref_poly_region, seq, ref_start, ref_end, query_end, pairs[i]);
        i = i + 1;
    }
    proof {
        if i == pairs.len() {
            assert(pairs@.subrange(0, pairs@.len() as int) =~= pairs@);
        }
    }
    Some(w.infos)
}

proof fn lemma_first_run(regions: Seq<(usize, usize, u8)>, start: int, i: int)
    requires
        0 <= start <= usize::MAX,
        0 <= i < regions.len(),
        relation_spec(regions[i], start as usize) != PosRelation::Right,
        forall|j: int| 0 <= j < i ==> relation_spec(#[trigger] regions[j], start as usize) == PosRelation::Right,
    ensures
        first_run(regions, start) == Some(if start > regions[i].0 {
            i + 1
        } else {
            i
        }),
{
    let c = choose|c: int|
        0 <= c < regions.len() && relation_spec(#[trigger] regions[c], start as usize)
            != PosRelation::Right && forall|j: int|
            0 <= j < c ==> relation_spec(#[trigger] regions[j], start as usize) == PosRelation::Right;
    assert(c == i) by {
        if c < i {
            assert(relation_spec(regions[c], start as usize) == PosRelation::Right);
        }
        if c > i {
            assert(relation_spec(regions[i], start as usize) == PosRelation::Right);
        }
    }
}

proof fn lemma_poly_stops(
    regions: Seq<(usize, usize, u8)>,
    seq: Seq<u8>,
    ref_start: int,
    ref_end: int,
    query_end: int,
    st0: PolyState,
    pairs: Seq<AlignedPair>,
    k: int,
)
    requires
        0 <= k <= pairs.len(),
        poly_walk(regions, seq, ref_start, ref_end, query_end, st0, pairs.subrange(0, k)).5,
    ensures
        poly_walk(regions, seq, ref_start, ref_end, query_end, st0, pairs.subrange(0, pairs.len() as int))
            == poly_walk(regions, seq, ref_start, ref_end, query_end, st0, pairs.subrange(0, k)),
    decreases pairs.len() - k,
{
    if k < pairs.len() {
        assert(pairs.subrange(0, k + 1).drop_last() =~= pairs.subrange(0, k));
        lemma_poly_stops(regions, seq, ref_start, ref_end, query_end, st0, pairs, k + 1);
    }
}

} // verus!
