use vstd::prelude::*;

verus! {

/// Index of the first entry named `name`, or `None`.
pub open spec fn find_name<T>(entries: Seq<(String, T)>, name: Seq<char>) -> Option<int>
    decreases entries.len(),
{
    if entries.len() == 0 {
        None
    } else {
        match find_name(entries.drop_last(), name) {
            Some(i) => Some(i),
            None => if entries.last().0@ == name {
                Some(entries.len() - 1)
            } else {
                None
            },
        }
    }
}

fn find_entry<T>(entries: &Vec<(String, T)>, name: &str) -> (r: Option<usize>)
    ensures
        match r {
            Some(i) => find_name(entries@, name@) == Some(i as int) && i < entries@.len(),
            None => find_name(entries@, name@) is None,
        },
{
    let key = name.to_owned();
    let mut i: usize = 0;
    proof {
        assert(entries@.subrange(0, 0) =~= Seq::<(String, T)>::empty());
    }
    while i < entries.len()
        invariant
            0 <= i <= entries@.len(),
            key@ == name@,
            find_name(entries@.subrange(0, i as int), name@) is None,
        decreases entries@.len() - i,
    {
        let ghost next = entries@.subrange(0, i as int + 1);
        proof {
            assert(next.drop_last() =~= entries@.subrange(0, i as int));
        }
        if entries[i].0 == key {
            proof {
                lemma_find_name_stays(entries@, name@, i as int + 1);
            }
            return Some(i);
        }
        i = i + 1;
    }
    proof {
        assert(entries@.subrange(0, entries@.len() as int) =~= entries@);
    }
    None
}

proof fn lemma_find_name_stays<T>(entries: Seq<(String, T)>, name: Seq<char>, k: int)
    requires
        0 < k <= entries.len(),
        find_name(entries.subrange(0, k), name) is Some,
    ensures
        find_name(entries, name) == find_name(entries.subrange(0, k), name),
    decreases entries.len() - k,
{
    if k < entries.len() {
        assert(entries.subrange(0, k + 1).drop_last() =~= entries.subrange(0, k));
        lemma_find_name_stays(entries, name, k + 1);
    } else {
        assert(entries.subrange(0, k) =~= entries);
    }
}

/// How many intervals start at or before `x`.
pub open spec fn starts_at_most(iv: Seq<(usize, usize)>, x: int) -> int
    decreases iv.len(),
{
    if iv.len() == 0 {
        0
    } else {
        starts_at_most(iv.drop_last(), x) + if iv.last().0 <= x {
            1int
        } else {
            0int
        }
    }
}

/// Intervals sorted by start.
pub open spec fn sorted_by_start(iv: Seq<(usize, usize)>) -> bool {
    forall|i: int, j: int| 0 <= i <= j < iv.len() ==> iv[i].0 <= iv[j].0
}

/// How many intervals of sorted `iv` start at or before `x`, by binary search.
fn count_starts(iv: &Vec<(usize, usize)>, x: usize) -> (r: usize)
    requires
        sorted_by_start(iv@),
    ensures
        r == starts_at_most(iv@, x as int),
        r <= iv@.len(),
        forall|i: int| 0 <= i < r ==> iv@[i].0 <= x,
        forall|i: int| r <= i < iv@.len() ==> iv@[i].0 > x,
{
    let mut lo: usize = 0;
    let mut hi: usize = iv.len();
    while lo < hi
        invariant
            0 <= lo <= hi <= iv@.len(),
            sorted_by_start(iv@),
            forall|i: int| 0 <= i < lo ==> iv@[i].0 <= x,
            forall|i: int| hi <= i < iv@.len() ==> iv@[i].0 > x,
        decreases hi - lo,
    {
        let mid = lo + (hi - lo) / 2;
        if iv[mid].0 <= x {
            lo = mid + 1;
        } else {
            hi = mid;
        }
    }
    proof {
        lemma_starts_at_most(iv@, x as int, lo as int);
    }
    lo
}

proof fn lemma_starts_at_most(iv: Seq<(usize, usize)>, x: int, r: int)
    requires
        0 <= r <= iv.len(),
        forall|i: int| 0 <= i < r ==> iv[i].0 <= x,
        forall|i: int| r <= i < iv.len() ==> iv[i].0 > x,
    ensures
        starts_at_most(iv, x) == r,
    decreases iv.len(),
{
    if iv.len() > 0 {
        let d = iv.drop_last();
        if r == iv.len() {
            lemma_starts_at_most(d, x, r - 1);
        } else {
            lemma_starts_at_most(d, x, r);
        }
    }
}

/// One line of a BED file: `chromosome begin end`, 0-based.
#[derive(Debug)]
pub struct BedRowData {
    pub chromosome: String,
    pub begin: usize,
    pub end: usize,
}

/// Intervals of a BED file by chromosome, each list sorted by start.
pub struct BedInfo {
    regions: Vec<(String, Vec<(usize, usize)>)>,
}

/// Some interval of `iv` holds `p`.
pub open spec fn point_in(iv: Seq<(usize, usize)>, p: int) -> bool {
    exists|i: int| #![trigger iv[i]] 0 <= i < iv.len() && iv[i].0 <= p < iv[i].1
}

/// Non-empty intervals in increasing order, none overlapping.
pub open spec fn disjoint_sorted(iv: Seq<(usize, usize)>) -> bool {
    &&& forall|i: int| 0 <= i < iv.len() ==> #[trigger] iv[i].0 < iv[i].1
    &&& forall|i: int, j: int| 0 <= i < j < iv.len() ==> iv[i].1 <= iv[j].0
}

proof fn lemma_disjoint_sorted(iv: Seq<(usize, usize)>)
    requires
        disjoint_sorted(iv),
    ensures
        sorted_by_start(iv),
{
    assert forall|i: int, j: int| 0 <= i <= j < iv.len() implies iv[i].0 <= iv[j].0 by {
        if i < j {
            assert(iv[i].0 < iv[i].1);
        }
    }
}

/// `within_the_range` on one sorted interval list: the last interval
/// starting at or before `b` reaches `e`, where it starts at `b` or is not
/// the last interval.
pub open spec fn range_in(iv: Seq<(usize, usize)>, b: int, e: int) -> bool {
    let k = starts_at_most(iv, b);
    if k > 0 && iv[k - 1].0 == b {
        iv[k - 1].1 >= e
    } else if k == 0 || k == iv.len() {
        false
    } else {
        e <= iv[k - 1].1
    }
}

impl BedInfo {
    pub closed spec fn entries(&self) -> Seq<(String, Vec<(usize, usize)>)> {
        self.regions@
    }

    pub open spec fn wf(&self) -> bool {
        forall|i: int| 0 <= i < self.entries().len() ==> disjoint_sorted(#[trigger] self.entries()[i].1@)
    }

    /// The intervals of `chrom`, if the file names it.
    pub open spec fn spec_regions(&self, chrom: Seq<char>) -> Option<Seq<(usize, usize)>> {
        match find_name(self.entries(), chrom) {
            Some(i) => Some(self.entries()[i].1@),
            None => None,
        }
    }

    /// Intervals by chromosome; `None` unless each list holds non-empty,
    /// non-overlapping intervals in increasing order.
    pub fn from_info(info: Vec<(String, Vec<(usize, usize)>)>) -> (r: Option<Self>)
        ensures
            r is Some <==> forall|i: int| 0 <= i < info@.len() ==> disjoint_sorted(#[trigger] info@[i].1@),
            r is Some ==> r->Some_0.entries() == info@ && r->Some_0.wf(),
    {
        let mut i: usize = 0;
        while i < info.len()
            invariant
                0 <= i <= info@.len(),
                forall|k: int| 0 <= k < i ==> disjoint_sorted(#[trigger] info@[k].1@),
            decreases info@.len() - i,
        {
            let iv = &info[i].1;
            let mut j: usize = 0;
            while j < iv.len()
                invariant
                    0 <= i < info@.len(),
                    iv@ == info@[i as int].1@,
                    0 <= j <= iv@.len(),
                    disjoint_sorted(iv@.subrange(0, j as int)),
                decreases iv@.len() - j,
            {
                if iv[j].0 >= iv[j].1 || (j > 0 && iv[j - 1].1 > iv[j].0) {
                    proof {
                        assert(info@[i as int].1@ == iv@);
                        if iv@[j as int].0 >= iv@[j as int].1 {
                            assert(!(iv@[j as int].0 < iv@[j as int].1));
                        } else {
                            assert(!(iv@[j as int - 1].1 <= iv@[j as int].0));
                        }
                        assert(!disjoint_sorted(iv@));
                    }
                    return None;
                }
                proof {
                    let p = iv@.subrange(0, j as int);
                    let q = iv@.subrange(0, j as int + 1);
                    assert forall|a: int| 0 <= a < q.len() implies #[trigger] q[a].0 < q[a].1 by {
                        if a < j {
                            assert(q[a] == p[a]);
                        }
                    }
                    assert forall|a: int, b: int| 0 <= a < b < q.len() implies q[a].1 <= q[b].0 by {
                        assert(q[a] == iv@[a]);
                        assert(q[b] == iv@[b]);
                        if b < j {
                            assert(p[a].1 <= p[b].0);
                        } else if a < j - 1 {
                            assert(p[a].1 <= p[j - 1].0);
                            assert(p[j - 1].0 < p[j - 1].1);
                        }
                    }
                }
                j = j + 1;
            }
            proof {
                assert(info@[i as int].1@ == iv@);
                assert(iv@.subrange(0, iv@.len() as int) =~= iv@);
            }
            i = i + 1;
        }
        Some(BedInfo { regions: info })
    }

    /// The intervals of `chrom`, sorted by start.
    pub fn get_regions(&self, chrom: &str) -> (r: Option<&Vec<(usize, usize)>>)
        ensures
            match r {
                Some(v) => self.spec_regions(chrom@) == Some(v@),
                None => self.spec_regions(chrom@) is None,
            },
    {
        match find_entry(&self.regions, chrom) {
            Some(i) => Some(&self.regions[i].1),
            None => None,
        }
    }

    /// Is `position` of `chrom` inside an interval?
    pub fn point_within_region(&self, chrom: &str, position: usize) -> (r: bool)
        requires
            self.wf(),
        ensures
            r == match self.spec_regions(chrom@) {
                Some(iv) => point_in(iv, position as int),
                None => false,
            },
    {
        match find_entry(&self.regions, chrom) {
            Some(i) => {
                proof {
                    assert(disjoint_sorted(self.regions@[i as int].1@));
                    lemma_disjoint_sorted(self.regions@[i as int].1@);
                }
                let iv = &self.regions[i].1;
                let k = count_starts(iv, position);
                let res = k > 0 && (iv[k - 1].0 == position || position < iv[k - 1].1);
                proof {
                    let v = iv@;
                    assert(v == self.regions@[i as int].1@);
                    if res {
                        assert(v[k - 1].0 <= position < v[k - 1].1);
                    } else {
                        assert forall|j: int| #![trigger v[j]] 0 <= j < v.len() implies !(v[j].0 <= position < v[j].1) by {
                            if j < k - 1 {
                                assert(v[j].1 <= v[k - 1].0);
                            }
                        }
                    }
                }
                res
            },
            None => false,
        }
    }

    /// Does an interval of `chromosome` hold the whole range `begin_end`?
    pub fn within_the_range(&self, chromosome: &str, begin_end: &(usize, usize)) -> (r: bool)
        requires
            self.wf(),
        ensures
            r == match self.spec_regions(chromosome@) {
                Some(iv) => range_in(iv, begin_end.0 as int, begin_end.1 as int),
                None => false,
            },
    {
        match find_entry(&self.regions, chromosome) {
            Some(i) => {
                proof {
                    assert(disjoint_sorted(self.regions@[i as int].1@));
                    lemma_disjoint_sorted(self.regions@[i as int].1@);
                }
                let iv = &self.regions[i].1;
                let k = count_starts(iv, begin_end.0);
                if k > 0 && iv[k - 1].0 == begin_end.0 {
                    iv[k - 1].1 >= begin_end.1
                } else if k == 0 || k == iv.len() {
                    false
                } else {
                    begin_end.1 <= iv[k - 1].1
                }
            },
            None => false,
        }
    }
}

/// One variant of a VCF file; `pos` is 0-based.
#[derive(Debug)]
pub struct VcfRowData {
    pub chrom: String,
    pub pos: usize,
    pub ref_bases: String,
    pub alt_bases: String,
    pub phred_q: u32,
}

impl VcfRowData {
    pub fn new(chrom: String, pos: usize, ref_bases: String, alt_bases: String, phred_q: u32) -> (r:
        Self)
        ensures
            r.chrom@ == chrom@ && r.pos == pos && r.ref_bases@ == ref_bases@ && r.alt_bases@
                == alt_bases@ && r.phred_q == phred_q,
    {
        Self { chrom, pos, ref_bases, alt_bases, phred_q }
    }
}

/// Positions sorted in increasing order (repeats allowed).
pub open spec fn sorted_positions(v: Seq<usize>) -> bool {
    forall|i: int, j: int| 0 <= i <= j < v.len() ==> v[i] <= v[j]
}

/// Does `v` hold `b`, or a value strictly between `b` and `e`?
pub open spec fn hits_range(v: Seq<usize>, b: int, e: int) -> bool {
    exists|k: int| #![trigger v[k]] 0 <= k < v.len() && (v[k] == b || (b < v[k] && v[k] < e))
}

/// Does `v` hold `p`?
pub open spec fn holds_position(v: Seq<usize>, p: int) -> bool {
    exists|k: int| #![trigger v[k]] 0 <= k < v.len() && v[k] == p
}

/// Variant positions of a VCF file by chromosome, each list sorted.
pub struct VcfInfo {
    info: Vec<(String, Vec<usize>)>,
}

impl VcfInfo {
    pub closed spec fn entries(&self) -> Seq<(String, Vec<usize>)> {
        self.info@
    }

    pub open spec fn wf(&self) -> bool {
        forall|i: int| 0 <= i < self.entries().len() ==> sorted_positions(#[trigger] self.entries()[i].1@)
    }

    pub open spec fn spec_positions(&self, chrom: Seq<char>) -> Option<Seq<usize>> {
        match find_name(self.entries(), chrom) {
            Some(i) => Some(self.entries()[i].1@),
            None => None,
        }
    }

    /// Variant positions by chromosome; `None` unless each list is sorted.
    pub fn from_info(info: Vec<(String, Vec<usize>)>) -> (r: Option<Self>)
        ensures
            r is Some <==> forall|i: int| 0 <= i < info@.len() ==> sorted_positions(#[trigger] info@[i].1@),
            r is Some ==> r->Some_0.entries() == info@ && r->Some_0.wf(),
    {
        let mut i: usize = 0;
        while i < info.len()
            invariant
                0 <= i <= info@.len(),
                forall|k: int| 0 <= k < i ==> sorted_positions(#[trigger] info@[k].1@),
            decreases info@.len() - i,
        {
            let v = &info[i].1;
            let mut j: usize = 1;
            while j < v.len()
                invariant
                    0 <= i < info@.len(),
                    v@ == info@[i as int].1@,
                    1 <= j <= v@.len() || v@.len() == 0,
                    forall|a: int, b: int| 0 <= a <= b < j && b < v@.len() ==> v@[a] <= v@[b],
                decreases v@.len() - j,
            {
                if v[j - 1] > v[j] {
                    proof {
                        assert(info@[i as int].1@ == v@);
                        assert(v@[j as int - 1] > v@[j as int]);
                    }
                    return None;
                }
                j = j + 1;
            }
            proof {
                assert(info@[i as int].1@ == v@);
            }
            i = i + 1;
        }
        Some(VcfInfo { info })
    }

    /// First index of sorted `v` whose value is not below `x`.
    fn lower_bound(v: &Vec<usize>, x: usize) -> (r: usize)
        requires
            sorted_positions(v@),
        ensures
            r <= v@.len(),
            forall|i: int| 0 <= i < r ==> v@[i] < x,
            forall|i: int| r <= i < v@.len() ==> v@[i] >= x,
    {
        let mut lo: usize = 0;
        let mut hi: usize = v.len();
        while lo < hi
            invariant
                0 <= lo <= hi <= v@.len(),
                sorted_positions(v@),
                forall|i: int| 0 <= i < lo ==> v@[i] < x,
                forall|i: int| hi <= i < v@.len() ==> v@[i] >= x,
            decreases hi - lo,
        {
            let mid = lo + (hi - lo) / 2;
            if v[mid] < x {
                lo = mid + 1;
            } else {
                hi = mid;
            }
        }
        lo
    }

    /// Does `range` of `chromosome` hold a variant position? A variant at
    /// the range's start counts even for an empty range.
    pub fn range_hit(&self, chromosome: &str, range: &(usize, usize)) -> (r: bool)
        requires
            self.wf(),
        ensures
            r == match self.spec_positions(chromosome@) {
                Some(v) => hits_range(v, range.0 as int, range.1 as int),
                None => false,
            },
    {
        match find_entry(&self.info, chromosome) {
            Some(i) => {
                proof {
                    assert(sorted_positions(self.info@[i as int].1@));
                }
                let v = &self.info[i].1;
                proof {
                    assert(find_name(self.info@, chromosome@) == Some(i as int));
                    assert(self.spec_positions(chromosome@) == Some(self.info@[i as int].1@));
                    assert(v@ == self.info@[i as int].1@);
                }
                let n = Self::lower_bound(v, range.0);
                if n == v.len() {
                    proof {
                        assert forall|k: int| 0 <= k < v@.len() implies !(v@[k] == range.0 || (range.0
                            < v@[k] && v@[k] < range.1)) by {
                            assert(v@[k] < range.0);
                        }
                    }
                    false
                } else {
                    proof {
                        let b = range.0;
                        let e = range.1;
                        if v@[n as int] == b || v@[n as int] < e {
                            assert(v@[n as int] >= b);
                            assert(exists|k: int|
                                #![trigger v@[k]]
                                0 <= k < v@.len() && (v@[k] == b || (b < v@[k] && v@[k] < e))) by {
                                assert(0 <= n < v@.len() && (v@[n as int] == b || (b < v@[n as int] && v@[n as int] < e)));
                            }
                        } else {
                            assert forall|k: int| 0 <= k < v@.len() implies !(v@[k] == b || (b < v@[k]
                                && v@[k] < e)) by {
                                if k >= n {
                                    assert(v@[n as int] <= v@[k]);
                                }
                            }
                        }
                    }
                    let res = v[n] == range.0 || v[n] < range.1;
                    proof {
                        assert(res == hits_range(v@, range.0 as int, range.1 as int));
                    }
                    res
                }
            },
            None => false,
        }
    }

    /// Is `position` of `chromosome` a variant position?
    pub fn point_hit(&self, chromosome: &str, position: usize) -> (r: bool)
        requires
            self.wf(),
        ensures
            r == match self.spec_positions(chromosome@) {
                Some(v) => holds_position(v, position as int),
                None => false,
            },
    {
        match find_entry(&self.info, chromosome) {
            Some(i) => {
                proof {
                    assert(sorted_positions(self.info@[i as int].1@));
                }
                let v = &self.info[i].1;
                proof {
                    assert(find_name(self.info@, chromosome@) == Some(i as int));
                    assert(self.spec_positions(chromosome@) == Some(self.info@[i as int].1@));
                    assert(v@ == self.info@[i as int].1@);
                }
                let n = Self::lower_bound(v, position);
                proof {
                    assert forall|k: int| 0 <= k < v@.len() && v@[k] == position implies (n < v@.len()
                        && v@[n as int] == position) by {
                        assert(k >= n);
                        assert(v@[n as int] <= v@[k]);
                    }
                }
                let res = n < v.len() && v[n] == position;
                proof {
                    assert(res == holds_position(v@, position as int));
                }
                res
            },
            None => false,
        }
    }
}

} // verus!
