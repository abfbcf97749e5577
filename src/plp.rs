use vstd::prelude::*;
use std::collections::HashMap;
use crate::blacklist::{get_query_locus_blacklist, policies_wf, union_flags, QueryLocusBlacklist};
use crate::cigar::{decimal, push_decimal, sum_qlen, sum_rlen, CigarOp};
use crate::record::{aligned_pairs, op_pairs, AlignedPair, AlignmentRecord};

verus! {

broadcast use vstd::std_specs::hash::group_hash_axioms;

/// Row of the count table for base `base` on a read of strand `fwd`:
/// reverse-strand reads fill rows 0-3 (`A C G T`) and 8 (gap), forward
/// reads rows 4-7 and 9.
pub open spec fn base_row(base: u8, fwd: bool) -> Option<usize> {
    let off: usize = if fwd {
        4
    } else {
        0
    };
    if base == 65u8 {
        Some(off)
    } else if base == 67u8 {
        Some((off + 1) as usize)
    } else if base == 71u8 {
        Some((off + 2) as usize)
    } else if base == 84u8 {
        Some((off + 3) as usize)
    } else if base == 32u8 || base == 45u8 || base == 42u8 {
        Some(
            if fwd {
                9usize
            } else {
                8usize
            },
        )
    } else {
        None
    }
}

/// Is `base` one of `A C G T` or a gap (` `, `-`, `*`)?
pub open spec fn known_base(base: u8) -> bool {
    base == 65u8 || base == 67u8 || base == 71u8 || base == 84u8 || base == 32u8 || base == 45u8
        || base == 42u8
}

/// Is `base` one that `get_base_idx` takes?
pub fn is_known_base(base: u8) -> (r: bool)
    ensures
        r == known_base(base),
{
    base == 65u8 || base == 67u8 || base == 71u8 || base == 84u8 || base == 32u8 || base == 45u8
        || base == 42u8
}

/// The count-table row of a base (`A C G T`, or a gap written ` `, `-` or
/// `*`) for a read of the given strand.
pub fn get_base_idx(base: u8, fwd: bool) -> (r: usize)
    requires
        known_base(base),
    ensures
        Some(r) == base_row(base, fwd),
{
    let off: usize = if fwd {
        4
    } else {
        0
    };
    if base == 65u8 {
        off
    } else if base == 67u8 {
        off + 1
    } else if base == 71u8 {
        off + 2
    } else if base == 84u8 {
        off + 3
    } else if fwd {
        9
    } else {
        8
    }
}

/// Why a pileup could not be built.
#[derive(Clone, Copy, Debug, PartialEq, Eq, Structural)]
pub enum PileupError {
    /// The column layout has no position.
    EmptyLayout,
    /// Layout positions not strictly increasing, or a position with no column.
    InvalidLayout,
    /// More columns than memory can index.
    TooLarge,
    /// A record reaches a reference position that the layout lacks.
    MissingRefPosition(u64),
    /// A record inserts more bases after a position than the layout holds.
    InsertionOverflow(u64),
    /// A query base outside `A C G T`.
    InvalidBase(u8),
    /// A count reached its largest value.
    CountOverflow,
    /// A blacklist rule could not be applied to a record.
    Blacklist,
}

/// Positions strictly increasing, each with at least one column.
pub open spec fn layout_ok(l: Seq<(u64, u64)>) -> bool {
    &&& forall|i: int| 0 <= i < l.len() ==> #[trigger] l[i].1 >= 1
    &&& forall|i: int, j: int| 0 <= i < j < l.len() ==> l[i].0 < l[j].0
}

/// The column map of a layout: each position's first column and column
/// count.
pub open spec fn columns_of(l: Seq<(u64, u64)>) -> Map<u64, (usize, usize)> {
    Map::new(
        |pos: u64| exists|i: int| 0 <= i < l.len() && #[trigger] l[i].0 == pos,
        |pos: u64|
            {
                let i = choose|i: int| 0 <= i < l.len() && #[trigger] l[i].0 == pos;
                (sum_widths(l.subrange(0, i)) as usize, l[i].1 as usize)
            },
    )
}

/// One past the last position of a layout.
pub open spec fn layout_ref_end(l: Seq<(u64, u64)>) -> u64 {
    if l.last().0 < u64::MAX {
        (l.last().0 + 1) as u64
    } else {
        l.last().0
    }
}

proof fn lemma_columns_of(l: Seq<(u64, u64)>, starts: Map<u64, (usize, usize)>)
    requires
        layout_ok(l),
        starts.dom() == Set::new(|pos: u64| exists|i: int| 0 <= i < l.len() && #[trigger] l[i].0 == pos),
        forall|j: int|
            0 <= j < l.len() ==> #[trigger] starts[l[j].0] == (
                sum_widths(l.subrange(0, j)) as usize,
                l[j].1 as usize,
            ),
    ensures
        starts == columns_of(l),
{
    let c = columns_of(l);
    assert forall|pos: u64| #[trigger] starts.contains_key(pos) implies starts[pos] == c[pos] by {
        assert(starts.dom().contains(pos));
        let i = choose|i: int| 0 <= i < l.len() && #[trigger] l[i].0 == pos;
        let j = choose|j: int| 0 <= j < l.len() && #[trigger] l[j].0 == pos;
        if i < j {
            assert(l[i].0 < l[j].0);
        }
        if j < i {
            assert(l[j].0 < l[i].0);
        }
    }
    assert(starts.dom() =~= c.dom());
    assert(starts =~= c);
}

proof fn lemma_expand_major_first(l: Seq<(u64, u64)>)
    requires
        l.len() > 0,
        l[0].1 >= 1,
    ensures
        expand_major(l).len() > 0,
        expand_major(l)[0] == l[0].0,
    decreases l.len(),
{
    lemma_expand_len(l);
    let pre = l.drop_last();
    lemma_expand_len(pre);
    if l.len() > 1 {
        lemma_expand_major_first(pre);
    }
}

/// Total columns of a layout.
pub open spec fn sum_widths(l: Seq<(u64, u64)>) -> nat
    decreases l.len(),
{
    if l.len() == 0 {
        0
    } else {
        sum_widths(l.drop_last()) + l.last().1 as nat
    }
}

/// Reference position of each column: position `p` of width `w` gives `w`
/// columns of `p`.
pub open spec fn expand_major(l: Seq<(u64, u64)>) -> Seq<u64>
    decreases l.len(),
{
    if l.len() == 0 {
        seq![]
    } else {
        expand_major(l.drop_last()) + Seq::new(l.last().1 as nat, |k: int| l.last().0)
    }
}

/// Insertion slot of each column: `0, 1, .., w - 1` for each position.
pub open spec fn expand_minor(l: Seq<(u64, u64)>) -> Seq<u64>
    decreases l.len(),
{
    if l.len() == 0 {
        seq![]
    } else {
        expand_minor(l.drop_last()) + Seq::new(l.last().1 as nat, |k: int| k as u64)
    }
}

/// One more layout entry keeps the layout ordered and the column map
/// describing it.
proof fn lemma_new_step(
    l: Seq<(u64, u64)>,
    i: int,
    old_starts: Map<u64, (usize, usize)>,
    starts: Map<u64, (usize, usize)>,
    idx: int,
)
    requires
        0 <= i < l.len(),
        layout_ok(l.subrange(0, i)),
        l[i].1 >= 1,
        i > 0 ==> l[i - 1].0 < l[i].0,
        idx == sum_widths(l.subrange(0, i)),
        idx <= usize::MAX,
        l[i].1 <= usize::MAX,
        old_starts.dom() == Set::new(|p: u64| exists|j: int| 0 <= j < i && #[trigger] l[j].0 == p),
        forall|j: int|
            0 <= j < i ==> #[trigger] old_starts[l[j].0] == (
                sum_widths(l.subrange(0, j)) as usize,
                l[j].1 as usize,
            ),
        starts == old_starts.insert(l[i].0, (idx as usize, l[i].1 as usize)),
    ensures
        layout_ok(l.subrange(0, i + 1)),
        starts.dom() == Set::new(|p: u64| exists|j: int| 0 <= j < i + 1 && #[trigger] l[j].0 == p),
        forall|j: int|
            0 <= j < i + 1 ==> #[trigger] starts[l[j].0] == (
                sum_widths(l.subrange(0, j)) as usize,
                l[j].1 as usize,
            ),
{
    let pre = l.subrange(0, i);
    let next = l.subrange(0, i + 1);
    let pos = l[i].0;
    assert(layout_ok(next)) by {
        assert forall|a: int| 0 <= a < next.len() implies #[trigger] next[a].1 >= 1 by {
            if a < i {
                assert(next[a] == pre[a]);
            }
        }
        assert forall|a: int, b: int| 0 <= a < b < next.len() implies next[a].0 < next[b].0 by {
            if b < i {
                assert(pre[a].0 < pre[b].0);
            } else if a < i - 1 {
                assert(pre[a].0 < pre[i - 1].0);
            }
        }
    }
    assert(starts.dom() =~= Set::new(|p: u64| exists|j: int| 0 <= j < i + 1 && #[trigger] l[j].0 == p)) by {
        assert forall|p: u64| starts.dom().contains(p) implies exists|j: int|
            0 <= j < i + 1 && #[trigger] l[j].0 == p by {
            if p == pos {
                assert(l[i].0 == p);
            } else {
                assert(old_starts.dom().contains(p));
            }
        }
        assert forall|p: u64| (exists|j: int| 0 <= j < i + 1 && #[trigger] l[j].0 == p) implies starts.dom().contains(p) by {
            let j = choose|j: int| 0 <= j < i + 1 && #[trigger] l[j].0 == p;
            if j < i {
                assert(old_starts.dom().contains(p));
            }
        }
    }
    assert forall|j: int| 0 <= j < i + 1 implies #[trigger] starts[l[j].0] == (
        sum_widths(l.subrange(0, j)) as usize,
        l[j].1 as usize,
    ) by {
        if j < i {
            assert(l[j].0 < l[i].0) by {
                if j < i - 1 {
                    assert(pre[j].0 < pre[i - 1].0);
                }
            }
        } else {
            assert(l.subrange(0, j) =~= pre);
        }
    }
}

/// The column map that `PlpCnts::new` builds numbers each position's
/// columns from 0 and gives distinct positions distinct first columns.
proof fn lemma_new_columns(l: Seq<(u64, u64)>, starts: Map<u64, (usize, usize)>, minor: Seq<u64>)
    requires
        layout_ok(l),
        minor == expand_minor(l),
        starts.dom() == Set::new(|pos: u64| exists|i: int| 0 <= i < l.len() && #[trigger] l[i].0 == pos),
        forall|j: int|
            0 <= j < l.len() ==> #[trigger] starts[l[j].0] == (
                sum_widths(l.subrange(0, j)) as usize,
                l[j].1 as usize,
            ),
        sum_widths(l) <= usize::MAX,
    ensures
        forall|p: u64, k: int|
            #[trigger] starts.contains_key(p) && 0 <= k < starts[p].1 ==> #[trigger] minor[starts[p].0 + k] == k,
        forall|p: u64, q: u64|
            #[trigger] starts.contains_key(p) && #[trigger] starts.contains_key(q) && p != q ==> starts[p].0 != starts[q].0,
{
    assert forall|p: u64, k: int|
        #[trigger] starts.contains_key(p) && 0 <= k < starts[p].1 implies #[trigger] minor[starts[p].0 + k] == k by {
        assert(starts.dom().contains(p));
        let j = choose|j: int| 0 <= j < l.len() && #[trigger] l[j].0 == p;
        lemma_expand_minor_at(l, j, k);
        lemma_sum_widths_prefix(l, j);
    }
    assert forall|p: u64, q: u64|
        #[trigger] starts.contains_key(p) && #[trigger] starts.contains_key(q) && p != q implies starts[p].0 != starts[q].0 by {
        assert(starts.dom().contains(p));
        assert(starts.dom().contains(q));
        let i = choose|i: int| 0 <= i < l.len() && #[trigger] l[i].0 == p;
        let j = choose|j: int| 0 <= j < l.len() && #[trigger] l[j].0 == q;
        lemma_sum_widths_prefix(l, i);
        lemma_sum_widths_prefix(l, j);
        if i < j {
            lemma_sum_widths_strict(l, i, j);
        } else {
            lemma_sum_widths_strict(l, j, i);
        }
    }
}

proof fn lemma_sum_widths_strict(l: Seq<(u64, u64)>, i: int, j: int)
    requires
        0 <= i < j <= l.len(),
        forall|k: int| 0 <= k < l.len() ==> #[trigger] l[k].1 >= 1,
    ensures
        sum_widths(l.subrange(0, i)) < sum_widths(l.subrange(0, j)),
    decreases j - i,
{
    assert(l.subrange(0, j).drop_last() =~= l.subrange(0, j - 1));
    if i < j - 1 {
        lemma_sum_widths_strict(l, i, j - 1);
    }
}

proof fn lemma_expand_minor_at(l: Seq<(u64, u64)>, j: int, k: int)
    requires
        0 <= j < l.len(),
        0 <= k < l[j].1,
    ensures
        sum_widths(l.subrange(0, j)) + k < sum_widths(l),
        expand_minor(l)[sum_widths(l.subrange(0, j)) + k] == k,
    decreases l.len(),
{
    let pre = l.drop_last();
    lemma_expand_len(pre);
    lemma_expand_len(l);
    if j == l.len() - 1 {
        assert(l.subrange(0, j) =~= pre);
    } else {
        lemma_expand_minor_at(pre, j, k);
        assert(pre.subrange(0, j) =~= l.subrange(0, j));
    }
}

proof fn lemma_expand_len(l: Seq<(u64, u64)>)
    ensures
        expand_major(l).len() == sum_widths(l),
        expand_minor(l).len() == sum_widths(l),
    decreases l.len(),
{
    if l.len() > 0 {
        lemma_expand_len(l.drop_last());
    }
}

/// Strand-aware base counts over a fixed grid of pileup columns.
#[derive(Debug)]
pub struct PlpCnts {
    ref_start: u64,
    ref_end: u64,
    major: Vec<u64>,
    minor: Vec<u64>,
    cnts: Vec<u32>,
    major_start_idx: HashMap<u64, (usize, usize)>,
    timesteps: usize,
}

impl PlpCnts {
    /// Reference position of each column.
    pub closed spec fn spec_major(&self) -> Seq<u64> {
        self.major@
    }

    /// Insertion slot of each column.
    pub closed spec fn spec_minor(&self) -> Seq<u64> {
        self.minor@
    }

    /// The count table, row-major: 10 rows of `spec_timesteps()` columns.
    pub closed spec fn spec_cnts(&self) -> Seq<u32> {
        self.cnts@
    }

    /// Number of columns.
    pub closed spec fn spec_timesteps(&self) -> nat {
        self.timesteps as nat
    }

    /// First column and column count of each reference position.
    pub closed spec fn spec_columns(&self) -> Map<u64, (usize, usize)> {
        self.major_start_idx@
    }

    pub closed spec fn wf(&self) -> bool {
        &&& self.major@.len() == self.timesteps
        &&& self.minor@.len() == self.timesteps
        &&& self.cnts@.len() == 10 * self.timesteps
        &&& 10 * self.timesteps <= usize::MAX
        &&& forall|p: u64|
            #[trigger] self.major_start_idx@.contains_key(p) ==> self.major_start_idx@[p].0
                + self.major_start_idx@[p].1 <= self.timesteps && self.major_start_idx@[p].1 >= 1
        &&& forall|p: u64, k: int|
            #[trigger] self.major_start_idx@.contains_key(p) && 0 <= k
                < self.major_start_idx@[p].1 ==> #[trigger] self.minor@[self.major_start_idx@[p].0 + k]
                == k
        &&& forall|p: u64, q: u64|
            #[trigger] self.major_start_idx@.contains_key(p) && #[trigger] self.major_start_idx@.contains_key(q)
                && p != q ==> self.major_start_idx@[p].0 != self.major_start_idx@[q].0
    }

    /// Each reference position of the grid owns the columns from its first
    /// one on, numbered by insertion slot from 0.
    pub proof fn lemma_grid_columns(&self)
        requires
            self.wf(),
        ensures
            self.spec_minor().len() == self.spec_timesteps(),
            self.spec_cnts().len() == 10 * self.spec_timesteps(),
            forall|p: u64|
                #[trigger] self.spec_columns().contains_key(p) ==> self.spec_columns()[p].0
                    + self.spec_columns()[p].1 <= self.spec_timesteps() && self.spec_columns()[p].1 >= 1,
            forall|p: u64, k: int|
                #[trigger] self.spec_columns().contains_key(p) && 0 <= k
                    < self.spec_columns()[p].1 ==> #[trigger] self.spec_minor()[self.spec_columns()[p].0 + k]
                    == k,
            forall|p: u64, q: u64|
                #[trigger] self.spec_columns().contains_key(p) && #[trigger] self.spec_columns().contains_key(q)
                    && p != q ==> self.spec_columns()[p].0 != self.spec_columns()[q].0,
    {
    }

    /// A zeroed grid with, for each `(position, width)` of `ref_pos_length`,
    /// `width` columns of that position.
    #[verifier::rlimit(100)]
    pub fn new(ref_pos_length: Vec<(u64, u64)>) -> (r: Result<Self, PileupError>)
        requires
            ref_pos_length@.len() > 0,
        ensures
            r is Ok <==> (layout_ok(ref_pos_length@) && 10 * sum_widths(ref_pos_length@)
                <= usize::MAX),
            r is Err ==> (r->Err_0 == PileupError::InvalidLayout || r->Err_0
                == PileupError::TooLarge),
            !layout_ok(ref_pos_length@) ==> r == Err::<Self, PileupError>(PileupError::InvalidLayout)
                || r == Err::<Self, PileupError>(PileupError::TooLarge),
            r is Ok ==> ({
                let p = r->Ok_0;
                let l = ref_pos_length@;
                &&& p.wf()
                &&& p.spec_timesteps() == sum_widths(l)
                &&& p.spec_major() == expand_major(l)
                &&& p.spec_minor() == expand_minor(l)
                &&& p.spec_cnts() == Seq::new(10 * sum_widths(l), |i: int| 0u32)
                &&& p.spec_columns() == columns_of(l)
                &&& p.spec_ref_start() == l[0].0
                &&& p.spec_ref_end() == layout_ref_end(l)
            }),
    {
        let len = ref_pos_length.len();
        let ghost l = ref_pos_length@;
        let mut major: Vec<u64> = Vec::new();
        let mut minor: Vec<u64> = Vec::new();
        let mut starts: HashMap<u64, (usize, usize)> = HashMap::new();
        let mut idx: usize = 0;
        let mut i: usize = 0;
        while i < len
            invariant
                0 <= i <= len == l.len(),
                l == ref_pos_length@,
                layout_ok(l.subrange(0, i as int)),
                idx == sum_widths(l.subrange(0, i as int)),
                10 * idx <= usize::MAX,
                major@ == expand_major(l.subrange(0, i as int)),
                minor@ == expand_minor(l.subrange(0, i as int)),
                starts@.dom() == Set::new(
                    |pos: u64| exists|j: int| 0 <= j < i && #[trigger] l[j].0 == pos,
                ),
                forall|j: int|
                    0 <= j < i ==> #[trigger] starts@[l[j].0] == (
                        sum_widths(l.subrange(0, j)) as usize,
                        l[j].1 as usize,
                    ),
                forall|j: int| 0 <= j < i ==> sum_widths(l.subrange(0, j)) + l[j].1 <= idx,
                i > 0 ==> l[i - 1].0 == expand_major(l.subrange(0, i as int)).last(),
            decreases len - i,
        {
            let (pos, width) = ref_pos_length[i];
            if width == 0 || (i > 0 && ref_pos_length[i - 1].0 >= pos) {
                proof {
                    lemma_layout_prefix_bad(l, i as int);
                }
                return Err(PileupError::InvalidLayout);
            }
            if width > ((usize::MAX / 10 - idx) as u64) {
                proof {
                    lemma_layout_prefix_large(l, i as int);
                }
                return Err(PileupError::TooLarge);
            }
            let ghost pre = l.subrange(0, i as int);
            let ghost next = l.subrange(0, i as int + 1);
            proof {
                assert(next.drop_last() =~= pre);
                assert(next.last() == (pos, width));
                lemma_expand_len(pre);
            }
            let ghost old_starts = starts@;
            starts.insert(pos, (idx, width as usize));
            let w = width as usize;
            let mut k: usize = 0;
            let ghost maj0 = major@;
            let ghost min0 = minor@;
            while k < w
                invariant
                    0 <= k <= w,
                    major@ == maj0 + Seq::new(k as nat, |x: int| pos),
                    minor@ == min0 + Seq::new(k as nat, |x: int| x as u64),
                decreases w - k,
            {
                major.push(pos);
                minor.push(k as u64);
                proof {
                    assert(maj0 + Seq::new((k + 1) as nat, |x: int| pos) =~= (maj0 + Seq::new(
                        k as nat,
                        |x: int| pos,
                    )).push(pos));
                    assert(min0 + Seq::new((k + 1) as nat, |x: int| x as u64) =~= (min0
                        + Seq::new(k as nat, |x: int| x as u64)).push(k as u64));
                }
                k = k + 1;
            }
            proof {
                lemma_new_step(l, i as int, old_starts, starts@, idx as int);
                assert(major@ =~= expand_major(next));
                assert(minor@ =~= expand_minor(next));
                assert(expand_major(next).last() == pos) by {
                    lemma_expand_len(next);
                    lemma_expand_len(pre);
                }
            }
            idx = idx + w;
            i = i + 1;
        }
        proof {
            assert(l.subrange(0, len as int) =~= l);
            lemma_expand_len(l);
            lemma_new_columns(l, starts@, minor@);
        }
        let mut cnts: Vec<u32> = Vec::new();
        let total = 10 * idx;
        let mut c: usize = 0;
        while c < total
            invariant
                0 <= c <= total,
                cnts@ =~= Seq::new(c as nat, |x: int| 0u32),
            decreases total - c,
        {
            cnts.push(0);
            c = c + 1;
        }
        proof {
            lemma_expand_major_first(l);
            lemma_columns_of(l, starts@);
        }
        let ref_start = major[0];
        let ref_end_last = major[idx - 1];
        let ref_end = if ref_end_last < u64::MAX {
            ref_end_last + 1
        } else {
            ref_end_last
        };
        Ok(
            PlpCnts {
                ref_start,
                ref_end,
                major,
                minor,
                cnts,
                major_start_idx: starts,
                timesteps: idx,
            },
        )
    }

    /// Reference position of each column.
    pub fn get_major(&self) -> (r: &Vec<u64>)
        ensures
            r@ == self.spec_major(),
    {
        &self.major
    }

    /// Insertion slot of each column.
    pub fn get_minor(&self) -> (r: &Vec<u64>)
        ensures
            r@ == self.spec_minor(),
    {
        &self.minor
    }

    /// The count table: 10 rows of one count per column.
    pub fn get_cnts(&self) -> (r: &Vec<u32>)
        ensures
            r@ == self.spec_cnts(),
    {
        &self.cnts
    }

    /// Index of the count of `row` at column `tt`.
    fn compute_idx(&self, tt: usize, row: usize) -> (r: usize)
        requires
            self.wf(),
            tt < self.spec_timesteps(),
            row < 10,
        ensures
            r == row * self.spec_timesteps() + tt,
            r < self.spec_cnts().len(),
    {
        proof {
            assert(row * self.timesteps + tt < 10 * self.timesteps) by (nonlinear_arith)
                requires
                    row < 10,
                    tt < self.timesteps,
            ;
        }
        row * self.timesteps + tt
    }

    /// The count table as text: one line per row, counts separated by tabs.
    pub fn cnts2str(&self) -> (r: String)
        requires
            self.wf(),
        ensures
            r@ == byte_chars(table_text(self.spec_cnts(), self.spec_timesteps() as int, 10)),
    {
        let t = self.timesteps;
        let mut out: Vec<u8> = Vec::new();
        let mut row: usize = 0;
        while row < 10
            invariant
                self.wf(),
                t == self.spec_timesteps(),
                0 <= row <= 10,
                out@ == table_text(self.cnts@, t as int, row as int),
            decreases 10 - row,
        {
            let ghost before = out@;
            if row > 0 {
                out.push(10u8);
            }
            let ghost head = out@;
            let mut col: usize = 0;
            while col < t
                invariant
                    self.wf(),
                    t == self.spec_timesteps(),
                    0 <= row < 10,
                    0 <= col <= t,
                    out@ == head + row_text(self.cnts@, t as int, row as int, col as int),
                decreases t - col,
            {
                if col > 0 {
                    out.push(9u8);
                }
                let idx = self.compute_idx(col, row);
                push_decimal(&mut out, self.cnts[idx] as u64);
                proof {
                    assert(out@ =~= head + row_text(self.cnts@, t as int, row as int, col + 1));
                }
                col = col + 1;
            }
            proof {
                assert(out@ =~= table_text(self.cnts@, t as int, row + 1));
            }
            row = row + 1;
        }
        bytes_to_string(out)
    }
}

/// Text of columns `0..n` of `row`: decimal counts separated by tabs.
pub open spec fn row_text(cnts: Seq<u32>, t: int, row: int, n: int) -> Seq<u8>
    decreases n,
{
    if n <= 0 {
        seq![]
    } else if n == 1 {
        decimal(cnts[row * t] as nat)
    } else {
        row_text(cnts, t, row, n - 1).push(9u8) + decimal(cnts[row * t + n - 1] as nat)
    }
}

/// Text of rows `0..n`, separated by newlines.
pub open spec fn table_text(cnts: Seq<u32>, t: int, n: int) -> Seq<u8>
    decreases n,
{
    if n <= 0 {
        seq![]
    } else if n == 1 {
        row_text(cnts, t, 0, t)
    } else {
        table_text(cnts, t, n - 1).push(10u8) + row_text(cnts, t, n - 1, t)
    }
}

/// Bytes read as characters, one for one.
pub open spec fn byte_chars(b: Seq<u8>) -> Seq<char> {
    Seq::new(b.len(), |i: int| b[i] as char)
}

/// Relies on `String::from_iter` over `u8 as char`: each byte becomes the
/// character of the same code.
#[verifier::external_body]
pub(crate) fn bytes_to_string(b: Vec<u8>) -> (r: String)
    ensures
        r@ == byte_chars(b@),
{
    String::from_iter(b.into_iter().map(|c| c as char))
}

proof fn lemma_layout_prefix_bad(l: Seq<(u64, u64)>, i: int)
    requires
        0 <= i < l.len(),
        l[i].1 == 0 || (i > 0 && l[i - 1].0 >= l[i].0),
    ensures
        !layout_ok(l),
{
}

proof fn lemma_layout_prefix_large(l: Seq<(u64, u64)>, i: int)
    requires
        0 <= i < l.len(),
        sum_widths(l.subrange(0, i)) + l[i].1 > usize::MAX / 10,
    ensures
        10 * sum_widths(l) > usize::MAX,
{
    lemma_sum_widths_prefix(l, i + 1);
    assert(l.subrange(0, i + 1).drop_last() =~= l.subrange(0, i));
}

proof fn lemma_sum_widths_prefix(l: Seq<(u64, u64)>, i: int)
    requires
        0 <= i <= l.len(),
    ensures
        sum_widths(l.subrange(0, i)) <= sum_widths(l),
    decreases l.len() - i,
{
    if i < l.len() {
        lemma_sum_widths_prefix(l, i + 1);
        assert(l.subrange(0, i + 1).drop_last() =~= l.subrange(0, i));
    } else {
        assert(l.subrange(0, i) =~= l);
    }
}

/// Where the accumulation walk over one record stands.
#[derive(Clone, Copy, Debug, PartialEq, Eq, Structural)]
pub struct AccCursor {
    /// First column of the current reference position.
    pub anchor: usize,
    /// Column count of the current reference position.
    pub width: usize,
    /// Insertion slot that the next inserted base goes to, less one.
    pub cur_ins: usize,
    /// Last query offset seen.
    pub qcur: Option<u64>,
    /// Last reference position seen.
    pub rcur: Option<u64>,
}

/// Whether a walk goes on, has ended, or has failed.
#[derive(Clone, Copy, Debug, PartialEq, Eq, Structural)]
pub enum Flow {
    Go,
    Stop,
    Fail(PileupError),
}

/// The part of a record that the walks read: reference window
/// `[start, end)`, end of the aligned query part, and strand.
#[derive(Clone, Copy, Debug, PartialEq, Eq, Structural)]
pub struct WalkBounds {
    pub start: u64,
    pub end: u64,
    pub query_end: u64,
    pub fwd: bool,
}

pub open spec fn initial_cursor() -> AccCursor {
    AccCursor { anchor: 0, width: 0, cur_ins: 0, qcur: None, rcur: None }
}

/// One column of the accumulation walk.
pub open spec fn acc_step(
    cols: Map<u64, (usize, usize)>,
    t: int,
    b: WalkBounds,
    seq: Seq<u8>,
    mask: Seq<bool>,
    cnts: Seq<u32>,
    c: AccCursor,
    pair: AlignedPair,
) -> (Seq<u32>, AccCursor, Flow) {
    let q = pair.0;
    let r = pair.1;
    let rcur = if r is Some {
        r
    } else {
        c.rcur
    };
    let qcur = if q is Some {
        q
    } else {
        c.qcur
    };
    let c1 = AccCursor { rcur, qcur, ..c };
    if rcur is None || rcur->0 < b.start {
        (cnts, c1, Flow::Go)
    } else if rcur->0 >= b.end {
        (cnts, c1, Flow::Stop)
    } else if qcur is Some && qcur->0 >= b.query_end {
        (cnts, c1, Flow::Stop)
    } else if r is Some && !cols.contains_key(r->0) {
        (cnts, c1, Flow::Fail(PileupError::MissingRefPosition(r->0)))
    } else {
        let anchor = if r is Some {
            cols[r->0].0
        } else {
            c.anchor
        };
        let width = if r is Some {
            cols[r->0].1
        } else {
            c.width
        };
        let ins: int = if r is Some {
            0
        } else {
            c.cur_ins + 1
        };
        let c2 = AccCursor { anchor, width, cur_ins: ins as usize, rcur, qcur };
        if q is Some && mask[q->0 as int] {
            (cnts, AccCursor { cur_ins: if ins > 0 { (ins - 1) as usize } else { 0 }, ..c2 }, Flow::Go)
        } else {
            let base = if q is Some {
                seq[q->0 as int]
            } else {
                45u8
            };
            match base_row(base, b.fwd) {
                None => (cnts, c2, Flow::Fail(PileupError::InvalidBase(base))),
                Some(row) => {
                    if ins >= width {
                        (cnts, c2, Flow::Fail(PileupError::InsertionOverflow(rcur->0)))
                    } else {
                        let idx = row * t + anchor + ins;
                        if cnts[idx] == u32::MAX {
                            (cnts, c2, Flow::Fail(PileupError::CountOverflow))
                        } else {
                            (cnts.update(idx, (cnts[idx] + 1) as u32), c2, Flow::Go)
                        }
                    }
                },
            }
        }
    }
}

/// The accumulation walk over `pairs`, from counts `cnts0`.
pub open spec fn acc_walk(
    cols: Map<u64, (usize, usize)>,
    t: int,
    b: WalkBounds,
    seq: Seq<u8>,
    mask: Seq<bool>,
    cnts0: Seq<u32>,
    pairs: Seq<AlignedPair>,
) -> (Seq<u32>, AccCursor, Flow)
    decreases pairs.len(),
{
    if pairs.len() == 0 {
        (cnts0, initial_cursor(), Flow::Go)
    } else {
        let prev = acc_walk(cols, t, b, seq, mask, cnts0, pairs.drop_last());
        if prev.2 is Go {
            acc_step(cols, t, b, seq, mask, prev.0, prev.1, pairs.last())
        } else {
            prev
        }
    }
}

/// Where the walk over a record stands as far as reaching the layout goes:
/// last reference position and query offset seen, whether the walk has
/// ended, and whether every position it reached is in `cols`.
pub type ReachState = (Option<u64>, Option<u64>, bool, bool);

/// One column of the walk, checked against the layout.
pub open spec fn reach_step(cols: Map<u64, (usize, usize)>, b: WalkBounds, st: ReachState, pair: AlignedPair) -> ReachState {
    let (rc0, qc0, stopped, ok) = st;
    let q = pair.0;
    let r = pair.1;
    let rcur = if r is Some {
        r
    } else {
        rc0
    };
    let qcur = if q is Some {
        q
    } else {
        qc0
    };
    if stopped || !ok {
        st
    } else if rcur is None || rcur->0 < b.start {
        (rcur, qcur, false, true)
    } else if rcur->0 >= b.end || (qcur is Some && qcur->0 >= b.query_end) {
        (rcur, qcur, true, true)
    } else if r is Some && !cols.contains_key(r->0) {
        (rcur, qcur, true, false)
    } else {
        (rcur, qcur, false, true)
    }
}

pub open spec fn reach_walk(cols: Map<u64, (usize, usize)>, b: WalkBounds, pairs: Seq<AlignedPair>) -> ReachState
    decreases pairs.len(),
{
    if pairs.len() == 0 {
        (None, None, false, true)
    } else {
        reach_step(cols, b, reach_walk(cols, b, pairs.drop_last()), pairs.last())
    }
}

/// Every reference position that the walk over `rec` within `[rs, re)`
/// reaches has columns in `cols`.
pub open spec fn reaches_layout(cols: Map<u64, (usize, usize)>, rec: &AlignmentRecord, rs: int, re: int) -> bool {
    reach_walk(cols, record_bounds(rec, rs, re), aligned_pairs(rec.spec_cigar(), rec.spec_pos())).3
}

/// Once the layout check has ended it stays ended.
proof fn lemma_reach_stays(cols: Map<u64, (usize, usize)>, b: WalkBounds, pairs: Seq<AlignedPair>, k: int)
    requires
        0 < k <= pairs.len(),
        reach_walk(cols, b, pairs.subrange(0, k)).2 || !reach_walk(cols, b, pairs.subrange(0, k)).3,
    ensures
        reach_walk(cols, b, pairs) == reach_walk(cols, b, pairs.subrange(0, k)),
    decreases pairs.len() - k,
{
    if k < pairs.len() {
        assert(pairs.subrange(0, k + 1).drop_last() =~= pairs.subrange(0, k));
        lemma_reach_stays(cols, b, pairs, k + 1);
    } else {
        assert(pairs.subrange(0, k) =~= pairs);
    }
}

/// Where every record could be added, every record reached only positions
/// of the layout.
proof fn lemma_records_acc_reach(
    cols: Map<u64, (usize, usize)>,
    t: int,
    rs: int,
    re: int,
    c0: Seq<u32>,
    recs: Seq<AlignmentRecord>,
    policies: Seq<QueryLocusBlacklist>,
)
    requires
        records_acc(cols, t, rs, re, c0, recs, policies) is Ok,
    ensures
        all_reach_layout(cols, recs, rs, re),
    decreases recs.len(),
{
    if recs.len() > 0 {
        let pre = recs.drop_last();
        lemma_records_acc_reach(cols, t, rs, re, c0, pre, policies);
        let c = records_acc(cols, t, rs, re, c0, pre, policies)->Ok_0;
        let rec = recs.last();
        let mask = union_flags(policies, &rec)->Some_0;
        lemma_reach_prefix(
            cols,
            t,
            record_bounds(&rec, rs, re),
            rec.spec_seq(),
            mask,
            c,
            aligned_pairs(rec.spec_cigar(), rec.spec_pos()),
        );
        assert forall|i: int| 0 <= i < recs.len() implies reaches_layout(cols, #[trigger] &recs[i], rs, re) by {
            if i < pre.len() {
                assert(recs[i] == pre[i]);
            }
        }
    }
}

/// Every record reaches only positions with columns in `cols`.
pub open spec fn all_reach_layout(cols: Map<u64, (usize, usize)>, recs: Seq<AlignmentRecord>, rs: int, re: int) -> bool {
    forall|i: int| 0 <= i < recs.len() ==> reaches_layout(cols, #[trigger] &recs[i], rs, re)
}

/// The accumulation walk and the layout check agree: while the walk goes
/// on they stand at the same cursor; a position missing from the layout is
/// exactly where the check fails.
pub proof fn lemma_reach_prefix(
    cols: Map<u64, (usize, usize)>,
    t: int,
    b: WalkBounds,
    seq: Seq<u8>,
    mask: Seq<bool>,
    cnts0: Seq<u32>,
    pairs: Seq<AlignedPair>,
)
    ensures
        ({
            let a = acc_walk(cols, t, b, seq, mask, cnts0, pairs);
            let r = reach_walk(cols, b, pairs);
            &&& a.2 is Go ==> r == (a.1.rcur, a.1.qcur, false, true)
            &&& a.2 is Stop ==> r.2 && r.3
            &&& (a.2 is Fail && a.2->Fail_0 is MissingRefPosition) ==> !r.3
        }),
    decreases pairs.len(),
{
    if pairs.len() > 0 {
        lemma_reach_prefix(cols, t, b, seq, mask, cnts0, pairs.drop_last());
    }
}

/// Reference window, aligned query end and strand of `rec` clipped to
/// `[rs, re)`.
pub open spec fn record_bounds(rec: &AlignmentRecord, rs: int, re: int) -> WalkBounds {
    let ops = rec.spec_cigar();
    let ref_start = rec.spec_pos();
    let ref_end = rec.spec_pos() + sum_rlen(ops);
    WalkBounds {
        start: (if rs > ref_start { rs } else { ref_start }) as u64,
        end: (if re < ref_end { re } else { ref_end }) as u64,
        query_end: crate::cigar::qend_spec(ops) as u64,
        fwd: !rec.spec_reverse(),
    }
}

/// Each query offset in the columns is below the query length; each
/// reference position lies in `[pos, pos + reference length)`.
pub proof fn lemma_pairs_bounds(ops: Seq<CigarOp>, pos: int)
    requires
        0 <= pos,
        pos + sum_rlen(ops) <= u64::MAX,
        sum_qlen(ops) <= u64::MAX,
    ensures
        forall|i: int|
            0 <= i < aligned_pairs(ops, pos).len() ==> {
                let p = #[trigger] aligned_pairs(ops, pos)[i];
                &&& p.0 is Some ==> p.0->0 < sum_qlen(ops)
                &&& p.1 is Some ==> pos <= p.1->0 < pos + sum_rlen(ops)
            },
    decreases ops.len(),
{
    if ops.len() > 0 {
        let pre = ops.drop_last();
        lemma_pairs_bounds(pre, pos);
        let a = aligned_pairs(pre, pos);
        let b = op_pairs(ops.last(), sum_qlen(pre) as int, pos + sum_rlen(pre));
        assert forall|i: int| 0 <= i < aligned_pairs(ops, pos).len() implies {
            let p = #[trigger] aligned_pairs(ops, pos)[i];
            &&& p.0 is Some ==> p.0->0 < sum_qlen(ops)
            &&& p.1 is Some ==> pos <= p.1->0 < pos + sum_rlen(ops)
        } by {
            if i >= a.len() {
                assert(aligned_pairs(ops, pos)[i] == b[i - a.len()]);
            } else {
                assert(aligned_pairs(ops, pos)[i] == a[i]);
            }
        }
    }
}

impl PlpCnts {
    pub closed spec fn spec_ref_start(&self) -> u64 {
        self.ref_start
    }

    pub closed spec fn spec_ref_end(&self) -> u64 {
        self.ref_end
    }

    /// Adds one to the count of `row` at column `tt`; fails on a full count.
    fn update_cnts(&mut self, tt: usize, row: usize) -> (r: Result<(), PileupError>)
        requires
            old(self).wf(),
            tt < old(self).spec_timesteps(),
            row < 10,
        ensures
            final(self).wf(),
            final(self).spec_major() == old(self).spec_major(),
            final(self).spec_minor() == old(self).spec_minor(),
            final(self).spec_columns() == old(self).spec_columns(),
            final(self).spec_timesteps() == old(self).spec_timesteps(),
            final(self).spec_ref_start() == old(self).spec_ref_start(),
            final(self).spec_ref_end() == old(self).spec_ref_end(),
            ({
                let idx = row * old(self).spec_timesteps() + tt;
                let c = old(self).spec_cnts();
                &&& r is Err <==> c[idx] == u32::MAX
                &&& r is Err ==> r->Err_0 == PileupError::CountOverflow && final(self).spec_cnts() == c
                &&& r is Ok ==> final(self).spec_cnts() == c.update(idx, (c[idx] + 1) as u32)
            }),
    {
        let idx = self.compute_idx(tt, row);
        let v = self.cnts[idx];
        if v == u32::MAX {
            return Err(PileupError::CountOverflow);
        }
        self.cnts.set(idx, v + 1);
        Ok(())
    }

    /// The bounds of the walk over `rec` within this grid.
    fn bounds_of(&self, rec: &AlignmentRecord) -> (r: WalkBounds)
        requires
            rec.wf(),
        ensures
            r == record_bounds(rec, self.spec_ref_start() as int, self.spec_ref_end() as int),
    {
        let rs = rec.reference_start();
        let re = rec.reference_end();
        WalkBounds {
            start: if self.ref_start > rs {
                self.ref_start
            } else {
                rs
            },
            end: if self.ref_end < re {
                self.ref_end
            } else {
                re
            },
            query_end: rec.query_alignment_end(),
            fwd: !rec.is_reverse(),
        }
    }

    /// A reference position that the walk over `rec` reaches and the grid
    /// lacks, if there is one.
    pub fn missing_position(&self, rec: &AlignmentRecord) -> (r: Option<u64>)
        requires
            self.wf(),
            rec.wf(),
        ensures
            r is None <==> reaches_layout(
                self.spec_columns(),
                rec,
                self.spec_ref_start() as int,
                self.spec_ref_end() as int,
            ),
    {
        let b = self.bounds_of(rec);
        let pairs = rec.aligned_pairs_full();
        let ghost cols = self.major_start_idx@;
        let mut rcur: Option<u64> = None;
        let mut qcur: Option<u64> = None;
        let mut i: usize = 0;
        proof {
            assert(pairs@.subrange(0, 0) =~= Seq::<AlignedPair>::empty());
        }
        while i < pairs.len()
            invariant
                0 <= i <= pairs@.len(),
                cols == self.major_start_idx@,
                b == record_bounds(rec, self.ref_start as int, self.ref_end as int),
                pairs@ == aligned_pairs(rec.spec_cigar(), rec.spec_pos()),
                reach_walk(cols, b, pairs@.subrange(0, i as int)) == (rcur, qcur, false, true),
            decreases pairs@.len() - i,
        {
            let ghost prefix = pairs@.subrange(0, i as int + 1);
            proof {
                assert(prefix.drop_last() =~= pairs@.subrange(0, i as int));
                assert(prefix.last() == pairs@[i as int]);
            }
            let (q, r) = pairs[i];
            if r.is_some() {
                rcur = r;
            }
            if q.is_some() {
                qcur = q;
            }
            let rc = match rcur {
                None => {
                    i = i + 1;
                    continue;
                },
                Some(v) => v,
            };
            if rc < b.start {
                i = i + 1;
                continue;
            }
            let past_query = match qcur {
                Some(qc) => qc >= b.query_end,
                None => false,
            };
            if rc >= b.end || past_query {
                proof {
                    lemma_reach_stays(cols, b, pairs@, i as int + 1);
                }
                return None;
            }
            if let Some(rp) = r {
                if !self.major_start_idx.contains_key(&rp) {
                    proof {
                        lemma_reach_stays(cols, b, pairs@, i as int + 1);
                    }
                    return Some(rp);
                }
            }
            i = i + 1;
        }
        proof {
            assert(pairs@.subrange(0, pairs@.len() as int) =~= pairs@);
        }
        None
    }

    /// Adds the bases of `rec` to the counts, skipping the query offsets set
    /// in `mask`.
    ///
    /// Walks the columns of the alignment within the grid's reference
    /// window: a column with a reference base counts at the first column of
    /// that position, an inserted base at the next insertion slot, and a
    /// column with no query base counts in the gap row. A blacklisted
    /// inserted base gives its slot to the next one. On an error the counts
    /// may hold part of the record.
    pub fn update_with_record_masked(&mut self, rec: &AlignmentRecord, mask: &Vec<bool>) -> (r:
        Result<(), PileupError>)
        requires
            old(self).wf(),
            rec.wf(),
            mask@.len() == rec.spec_seq().len(),
            reaches_layout(
                old(self).spec_columns(),
                rec,
                old(self).spec_ref_start() as int,
                old(self).spec_ref_end() as int,
            ),
        ensures
            final(self).wf(),
            final(self).spec_major() == old(self).spec_major(),
            final(self).spec_minor() == old(self).spec_minor(),
            final(self).spec_columns() == old(self).spec_columns(),
            final(self).spec_timesteps() == old(self).spec_timesteps(),
            final(self).spec_ref_start() == old(self).spec_ref_start(),
            final(self).spec_ref_end() == old(self).spec_ref_end(),
            ({
                let w = acc_walk(
                    old(self).spec_columns(),
                    old(self).spec_timesteps() as int,
                    record_bounds(rec, old(self).spec_ref_start() as int, old(self).spec_ref_end() as int),
                    rec.spec_seq(),
                    mask@,
                    old(self).spec_cnts(),
                    aligned_pairs(rec.spec_cigar(), rec.spec_pos()),
                );
                &&& r is Ok <==> !(w.2 is Fail)
                &&& r is Err ==> w.2 == Flow::Fail(r->Err_0)
                &&& r is Err ==> !(r->Err_0 is MissingRefPosition)
                &&& r is Ok ==> final(self).spec_cnts() == w.0
            }),
    {
        proof {
            lemma_reach_prefix(
                old(self).spec_columns(),
                old(self).spec_timesteps() as int,
                record_bounds(rec, old(self).spec_ref_start() as int, old(self).spec_ref_end() as int),
                rec.spec_seq(),
                mask@,
                old(self).spec_cnts(),
                aligned_pairs(rec.spec_cigar(), rec.spec_pos()),
            );
        }
        let b = self.bounds_of(rec);
        let pairs = rec.aligned_pairs_full();
        let seq = rec.seq();
        let ghost cols = self.major_start_idx@;
        let ghost t = self.timesteps as int;
        let ghost cnts0 = self.cnts@;
        proof {
            assert(reach_walk(cols, b, pairs@).3);
            lemma_pairs_bounds(rec.spec_cigar(), rec.spec_pos());
        }
        let mut c = AccCursor { anchor: 0, width: 0, cur_ins: 0, qcur: None, rcur: None };
        let mut i: usize = 0;
        proof {
            assert(pairs@.subrange(0, 0) =~= Seq::<AlignedPair>::empty());
        }
        while i < pairs.len()
            invariant
                0 <= i <= pairs@.len(),
                self.wf(),
                rec.wf(),
                seq@ == rec.spec_seq(),
                mask@.len() == seq@.len(),
                seq@.len() == sum_qlen(rec.spec_cigar()),
                pairs@ == aligned_pairs(rec.spec_cigar(), rec.spec_pos()),
                forall|k: int|
                    0 <= k < pairs@.len() ==> {
                        let p = #[trigger] pairs@[k];
                        &&& p.0 is Some ==> p.0->0 < sum_qlen(rec.spec_cigar())
                    },
                cols == self.major_start_idx@,
                t == self.timesteps,
                self.major@ == old(self).major@,
                self.minor@ == old(self).minor@,
                self.major_start_idx@ == old(self).major_start_idx@,
                self.timesteps == old(self).timesteps,
                self.ref_start == old(self).ref_start,
                self.ref_end == old(self).ref_end,
                cnts0 == old(self).cnts@,
                b == record_bounds(rec, self.ref_start as int, self.ref_end as int),
                reach_walk(cols, b, pairs@).3,
                acc_walk(cols, t, b, seq@, mask@, cnts0, pairs@.subrange(0, i as int)) == (
                    self.cnts@,
                    c,
                    Flow::Go,
                ),
                c.cur_ins <= c.width,
                c.anchor + c.width <= t,
            decreases pairs@.len() - i,
        {
            let ghost prefix = pairs@.subrange(0, i as int + 1);
            proof {
                assert(prefix.drop_last() =~= pairs@.subrange(0, i as int));
                assert(prefix.last() == pairs@[i as int]);
            }
            let (q, r) = pairs[i];
            let rcur = if r.is_some() {
                r
            } else {
                c.rcur
            };
            let qcur = if q.is_some() {
                q
            } else {
                c.qcur
            };
            c = AccCursor { rcur, qcur, ..c };
            let rc = match rcur {
                None => {
                    i = i + 1;
                    continue;
                },
                Some(v) => v,
            };
            if rc < b.start {
                i = i + 1;
                continue;
            }
            if rc >= b.end {
                proof {
                    lemma_walk_stops(cols, t, b, seq@, mask@, cnts0, pairs@, i as int + 1);
                    assert(pairs@.subrange(0, pairs@.len() as int) =~= pairs@);
                }
                return Ok(());
            }
            if let Some(qc) = qcur {
                if qc >= b.query_end {
                    proof {
                        lemma_walk_stops(cols, t, b, seq@, mask@, cnts0, pairs@, i as int + 1);
                        assert(pairs@.subrange(0, pairs@.len() as int) =~= pairs@);
                    }
                    return Ok(());
                }
            }
            let ins: usize;
            if let Some(rp) = r {
                match self.major_start_idx.get(&rp) {
                    Some(sw) => {
                        c.anchor = sw.0;
                        c.width = sw.1;
                    },
                    None => {
                        proof {
                            lemma_walk_stops(cols, t, b, seq@, mask@, cnts0, pairs@, i as int + 1);
                            assert(pairs@.subrange(0, pairs@.len() as int) =~= pairs@);
                            lemma_reach_prefix(cols, t, b, seq@, mask@, cnts0, pairs@);
                            assert(acc_walk(cols, t, b, seq@, mask@, cnts0, pairs@).2 == Flow::Fail(
                                PileupError::MissingRefPosition(rp),
                            ));
                            assert(reach_walk(cols, b, pairs@).3);
                            assert(false);
                        }
                        return Err(PileupError::MissingRefPosition(rp));
                    },
                }
                ins = 0;
            } else {
                ins = c.cur_ins + 1;
            }
            c.cur_ins = ins;
            let base: u8;
            if let Some(qp) = q {
                if mask[qp as usize] {
                    c.cur_ins = if ins > 0 {
                        ins - 1
                    } else {
                        0
                    };
                    i = i + 1;
                    continue;
                }
                base = seq[qp as usize];
            } else {
                base = 45u8;
            }
            if !is_known_base(base) {
                proof {
                    lemma_walk_stops(cols, t, b, seq@, mask@, cnts0, pairs@, i as int + 1);
                    assert(pairs@.subrange(0, pairs@.len() as int) =~= pairs@);
                }
                return Err(PileupError::InvalidBase(base));
            }
            let row = get_base_idx(base, b.fwd);
            if ins >= c.width {
                    proof {
                        lemma_walk_stops(cols, t, b, seq@, mask@, cnts0, pairs@, i as int + 1);
                        assert(pairs@.subrange(0, pairs@.len() as int) =~= pairs@);
                    }
                return Err(PileupError::InsertionOverflow(rc));
            }
            match self.update_cnts(c.anchor + ins, row) {
                Ok(()) => {},
                Err(e) => {
                    proof {
                        lemma_walk_stops(cols, t, b, seq@, mask@, cnts0, pairs@, i as int + 1);
                        assert(pairs@.subrange(0, pairs@.len() as int) =~= pairs@);
                    }
                    return Err(e);
                },
            }
            i = i + 1;
        }
        proof {
            assert(pairs@.subrange(0, pairs@.len() as int) =~= pairs@);
        }
        Ok(())
    }
}

/// Once a walk has stopped it stays stopped.
proof fn lemma_walk_stops(
    cols: Map<u64, (usize, usize)>,
    t: int,
    b: WalkBounds,
    seq: Seq<u8>,
    mask: Seq<bool>,
    cnts0: Seq<u32>,
    pairs: Seq<AlignedPair>,
    k: int,
)
    requires
        0 < k <= pairs.len(),
        !(acc_walk(cols, t, b, seq, mask, cnts0, pairs.subrange(0, k)).2 is Go),
    ensures
        acc_walk(cols, t, b, seq, mask, cnts0, pairs.subrange(0, pairs.len() as int)) == acc_walk(
            cols,
            t,
            b,
            seq,
            mask,
            cnts0,
            pairs.subrange(0, k),
        ),
    decreases pairs.len() - k,
{
    if k < pairs.len() {
        assert(pairs.subrange(0, k + 1).drop_last() =~= pairs.subrange(0, k));
        lemma_walk_stops(cols, t, b, seq, mask, cnts0, pairs, k + 1);
    }
}

/// `m` with `k` raised to at least `v`.
pub open spec fn bump(m: Map<u64, u64>, k: u64, v: u64) -> Map<u64, u64> {
    m.insert(
        k,
        if m.contains_key(k) && m[k] > v {
            m[k]
        } else {
            v
        },
    )
}

/// Where the insertion-profile walk over one record stands: the profile so
/// far, the last reference position seen, the running insertion count, and
/// whether the walk has ended.
pub type ProfState = (Map<u64, u64>, Option<u64>, u64, bool);

/// One column of the insertion-profile walk.
pub open spec fn prof_step(b: WalkBounds, mask: Seq<bool>, st: ProfState, pair: AlignedPair) -> ProfState {
    let (m, rcur, cur_ins, stopped) = st;
    let q = pair.0;
    let r = pair.1;
    let rc = if r is Some {
        r
    } else {
        rcur
    };
    if rc is None || rc->0 < b.start {
        (m, rc, cur_ins, false)
    } else if rc->0 >= b.end {
        (bump(m, (rc->0 - 1) as u64, cur_ins), rc, cur_ins, true)
    } else if q is Some && q->0 >= b.query_end {
        (bump(m, rc->0, cur_ins), rc, cur_ins, true)
    } else if r is Some {
        (
            if r->0 > b.start {
                bump(m, (r->0 - 1) as u64, cur_ins)
            } else {
                m
            },
            rc,
            0,
            false,
        )
    } else {
        (m, rc, (cur_ins + if q is Some && !mask[q->0 as int] { 1u64 } else { 0u64 }) as u64, false)
    }
}

/// The insertion-profile walk over `pairs`, from profile `m0`.
pub open spec fn prof_walk(b: WalkBounds, mask: Seq<bool>, m0: Map<u64, u64>, pairs: Seq<AlignedPair>) -> ProfState
    decreases pairs.len(),
{
    if pairs.len() == 0 {
        (m0, None, 0, false)
    } else {
        let prev = prof_walk(b, mask, m0, pairs.drop_last());
        if prev.3 {
            prev
        } else {
            prof_step(b, mask, prev, pairs.last())
        }
    }
}

/// Reference window of `rec` for the profile: the record's span, clipped to
/// `[rstart, rend)` where given.
pub open spec fn profile_bounds(rec: &AlignmentRecord, rstart: Option<u64>, rend: Option<u64>) -> WalkBounds {
    let ref_start = rec.spec_pos();
    let ref_end = rec.spec_pos() + sum_rlen(rec.spec_cigar());
    record_bounds(
        rec,
        match rstart {
            Some(s) => s as int,
            None => ref_start,
        },
        match rend {
            Some(e) => e as int,
            None => ref_end,
        },
    )
}

/// The columns of `rec` with one more step that ends any insertion run at
/// the end of the alignment.
pub open spec fn flushed_pairs(rec: &AlignmentRecord) -> Seq<AlignedPair> {
    aligned_pairs(rec.spec_cigar(), rec.spec_pos()).push(
        (Some(sum_qlen(rec.spec_cigar()) as u64), None::<u64>),
    )
}

/// The profile after adding `rec`, with blacklist `mask`; a record that
/// misses the window adds nothing.
pub open spec fn record_profile(
    m: Map<u64, u64>,
    rec: &AlignmentRecord,
    rstart: Option<u64>,
    rend: Option<u64>,
    mask: Seq<bool>,
) -> Map<u64, u64> {
    let b = profile_bounds(rec, rstart, rend);
    if b.start >= b.end {
        m
    } else {
        prof_walk(b, mask, m, flushed_pairs(rec)).0
    }
}

/// For each reference position, the longest run of non-blacklisted inserted
/// bases right after it over `recs`; an error if a blacklist rule fails.
pub open spec fn batch_profile(
    recs: Seq<AlignmentRecord>,
    rstart: Option<u64>,
    rend: Option<u64>,
    policies: Seq<QueryLocusBlacklist>,
) -> Result<Map<u64, u64>, PileupError>
    decreases recs.len(),
{
    if recs.len() == 0 {
        Ok(Map::empty())
    } else {
        match batch_profile(recs.drop_last(), rstart, rend, policies) {
            Err(e) => Err(e),
            Ok(m) => match union_flags(policies, &recs.last()) {
                None => Err(PileupError::Blacklist),
                Some(mask) => Ok(record_profile(m, &recs.last(), rstart, rend, mask)),
            },
        }
    }
}

/// Every record keeps the limits of `AlignmentRecord::wf`.
pub open spec fn records_wf(recs: Seq<AlignmentRecord>) -> bool {
    forall|i: int| 0 <= i < recs.len() ==> #[trigger] recs[i].wf()
}

/// Lowest reference position a profile key can take.
pub open spec fn profile_lo(recs: Seq<AlignmentRecord>, rstart: Option<u64>) -> int
    decreases recs.len(),
{
    match rstart {
        Some(s) => s as int,
        None => if recs.len() == 0 {
            u64::MAX as int
        } else {
            let lo = profile_lo(recs.drop_last(), rstart);
            if recs.last().spec_pos() < lo {
                recs.last().spec_pos()
            } else {
                lo
            }
        },
    }
}

/// One past the highest reference position a profile key can take.
pub open spec fn profile_hi(recs: Seq<AlignmentRecord>) -> int
    decreases recs.len(),
{
    if recs.len() == 0 {
        0
    } else {
        let hi = profile_hi(recs.drop_last());
        let e = recs.last().spec_pos() + sum_rlen(recs.last().spec_cigar());
        if e > hi {
            e
        } else {
            hi
        }
    }
}

/// Every key of `m` lies in `[lo, hi)`.
pub open spec fn keys_within(m: Map<u64, u64>, lo: int, hi: int) -> bool {
    forall|k: u64| #[trigger] m.contains_key(k) ==> lo <= k < hi
}

/// Raises `m[k]` to at least `v`.
fn bump_exec(m: &mut HashMap<u64, u64>, k: u64, v: u64)
    ensures
        final(m)@ == bump(old(m)@, k, v),
{
    let nv = match m.get(&k) {
        Some(old_v) => if *old_v > v {
            *old_v
        } else {
            v
        },
        None => v,
    };
    m.insert(k, nv);
}

/// Adds one record to the insertion profile `m`.
fn profile_record(
    m: &mut HashMap<u64, u64>,
    rec: &AlignmentRecord,
    rstart: Option<u64>,
    rend: Option<u64>,
    mask: &Vec<bool>,
)
    requires
        rec.wf(),
        mask@.len() == rec.spec_seq().len(),
    ensures
        final(m)@ == record_profile(old(m)@, rec, rstart, rend, mask@),
        forall|k: u64|
            #[trigger] final(m)@.contains_key(k) ==> old(m)@.contains_key(k) || (profile_bounds(
                rec,
                rstart,
                rend,
            ).start <= k < rec.spec_pos() + sum_rlen(rec.spec_cigar())),
{
    let ref_start = rec.reference_start();
    let ref_end = rec.reference_end();
    let ws = match rstart {
        Some(s) => s,
        None => ref_start,
    };
    let we = match rend {
        Some(e) => e,
        None => ref_end,
    };
    let b = WalkBounds {
        start: if ws > ref_start {
            ws
        } else {
            ref_start
        },
        end: if we < ref_end {
            we
        } else {
            ref_end
        },
        query_end: rec.query_alignment_end(),
        fwd: !rec.is_reverse(),
    };
    proof {
        assert(b == profile_bounds(rec, rstart, rend));
    }
    if b.start >= b.end {
        return;
    }
    let mut pairs = rec.aligned_pairs_full();
    let total_q = rec.seq_len() as u64;
    pairs.push((Some(total_q), None));
    let ghost m0 = m@;
    proof {
        assert(m0 == old(m)@);
        lemma_pairs_bounds(rec.spec_cigar(), rec.spec_pos());
        crate::cigar::lemma_sum_qlen_bounds(rec.spec_cigar());
        assert(pairs@ == flushed_pairs(rec));
        assert(pairs@.subrange(0, 0) =~= Seq::<AlignedPair>::empty());
    }
    let mut rcur: Option<u64> = None;
    let mut cur_ins: u64 = 0;
    let mut i: usize = 0;
    while i < pairs.len()
        invariant
            0 <= i <= pairs@.len(),
            rec.wf(),
            mask@.len() == rec.spec_seq().len(),
            rec.spec_seq().len() == sum_qlen(rec.spec_cigar()),
            b == profile_bounds(rec, rstart, rend),
            b.start < b.end,
            b.query_end <= sum_qlen(rec.spec_cigar()),
            pairs@ == flushed_pairs(rec),
            forall|k: int|
                0 <= k < pairs@.len() - 1 ==> {
                    let p = #[trigger] pairs@[k];
                    &&& p.0 is Some ==> p.0->0 < sum_qlen(rec.spec_cigar())
                    &&& p.1 is Some ==> rec.spec_pos() <= p.1->0 < rec.spec_pos() + sum_rlen(
                        rec.spec_cigar(),
                    )
                },
            pairs@.last() == (Some(sum_qlen(rec.spec_cigar()) as u64), None::<u64>),
            m0 == old(m)@,
            prof_walk(b, mask@, m0, pairs@.subrange(0, i as int)) == (m@, rcur, cur_ins, false),
            cur_ins <= i,
            rcur is Some ==> rec.spec_pos() <= rcur->0 < rec.spec_pos() + sum_rlen(rec.spec_cigar()),
            forall|k: u64|
                #[trigger] m@.contains_key(k) ==> m0.contains_key(k) || (b.start <= k
                    < rec.spec_pos() + sum_rlen(rec.spec_cigar())),
        decreases pairs@.len() - i,
    {
        let ghost prefix = pairs@.subrange(0, i as int + 1);
        proof {
            assert(prefix.drop_last() =~= pairs@.subrange(0, i as int));
            assert(prefix.last() == pairs@[i as int]);
        }
        let ghost prev = (m@, rcur, cur_ins, false);
        let (q, r) = pairs[i];
        if r.is_some() {
            rcur = r;
        }
        let rc = match rcur {
            None => {
                i = i + 1;
                continue;
            },
            Some(v) => v,
        };
        if rc < b.start {
            i = i + 1;
            continue;
        }
        if rc >= b.end {
            let ghost mb = m@;
            bump_exec(m, rc - 1, cur_ins);
            proof {
                assert(prof_step(b, mask@, prev, prefix.last()) == (m@, rcur, cur_ins, true));
                assert(prof_walk(b, mask@, m0, prefix) == (m@, rcur, cur_ins, true));
                lemma_prof_stops(b, mask@, m0, pairs@, i as int + 1);
                assert(pairs@.subrange(0, pairs@.len() as int) =~= pairs@);
                assert(record_profile(old(m)@, rec, rstart, rend, mask@) == prof_walk(b, mask@, m0, pairs@).0);
            }
            return;
        }
        if let Some(qp) = q {
            if qp >= b.query_end {
                bump_exec(m, rc, cur_ins);
                proof {
                    assert(prof_step(b, mask@, prev, prefix.last()) == (m@, rcur, cur_ins, true));
                    assert(prof_walk(b, mask@, m0, prefix) == (m@, rcur, cur_ins, true));
                    lemma_prof_stops(b, mask@, m0, pairs@, i as int + 1);
                    assert(pairs@.subrange(0, pairs@.len() as int) =~= pairs@);
                    assert(record_profile(old(m)@, rec, rstart, rend, mask@) == prof_walk(b, mask@, m0, pairs@).0);
                }
                return;
            }
        }
        if let Some(rp) = r {
            if rp > b.start {
                bump_exec(m, rp - 1, cur_ins);
            }
            cur_ins = 0;
        } else {
            if let Some(qp) = q {
                if !mask[qp as usize] {
                    cur_ins = cur_ins + 1;
                }
            }
        }
        i = i + 1;
    }
    proof {
        assert(pairs@.subrange(0, pairs@.len() as int) =~= pairs@);
    }
}

/// Once the profile walk has ended it stays ended.
proof fn lemma_prof_stops(b: WalkBounds, mask: Seq<bool>, m0: Map<u64, u64>, pairs: Seq<AlignedPair>, k: int)
    requires
        0 < k <= pairs.len(),
        prof_walk(b, mask, m0, pairs.subrange(0, k)).3,
    ensures
        prof_walk(b, mask, m0, pairs.subrange(0, pairs.len() as int)) == prof_walk(
            b,
            mask,
            m0,
            pairs.subrange(0, k),
        ),
    decreases pairs.len() - k,
{
    if k < pairs.len() {
        assert(pairs.subrange(0, k + 1).drop_last() =~= pairs.subrange(0, k));
        lemma_prof_stops(b, mask, m0, pairs, k + 1);
    }
}

/// For each reference position that the records reach, the longest run of
/// non-blacklisted inserted bases right after it, over all records; an
/// error if a blacklist rule fails on a record.
pub fn compute_max_ins_of_each_ref_position(
    records: &Vec<AlignmentRecord>,
    rstart: Option<u64>,
    rend: Option<u64>,
    policies: &Vec<QueryLocusBlacklist>,
) -> (r: Result<HashMap<u64, u64>, PileupError>)
    requires
        records_wf(records@),
        policies_wf(policies@),
    ensures
        match r {
            Ok(m) => batch_profile(records@, rstart, rend, policies@) == Ok::<
                Map<u64, u64>,
                PileupError,
            >(m@) && keys_within(m@, profile_lo(records@, rstart), profile_hi(records@)),
            Err(e) => batch_profile(records@, rstart, rend, policies@) == Err::<
                Map<u64, u64>,
                PileupError,
            >(e),
        },
{
    let mut m: HashMap<u64, u64> = HashMap::new();
    let mut i: usize = 0;
    proof {
        assert(records@.subrange(0, 0) =~= Seq::<AlignmentRecord>::empty());
        assert(m@ =~= Map::<u64, u64>::empty());
    }
    while i < records.len()
        invariant
            0 <= i <= records@.len(),
            records_wf(records@),
            policies_wf(policies@),
            batch_profile(records@.subrange(0, i as int), rstart, rend, policies@) == Ok::<
                Map<u64, u64>,
                PileupError,
            >(m@),
            keys_within(
                m@,
                profile_lo(records@.subrange(0, i as int), rstart),
                profile_hi(records@.subrange(0, i as int)),
            ),
        decreases records@.len() - i,
    {
        let ghost next = records@.subrange(0, i as int + 1);
        proof {
            assert(next.drop_last() =~= records@.subrange(0, i as int));
            assert(next.last() == records@[i as int]);
            assert(records@[i as int].wf());
        }
        let rec = &records[i];
        let mask = match get_query_locus_blacklist(rec, policies) {
            Some(mask) => mask,
            None => {
                proof {
                    lemma_batch_err(records@, rstart, rend, policies@, i as int + 1);
                }
                return Err(PileupError::Blacklist);
            },
        };
        let ghost before = m@;
        profile_record(&mut m, rec, rstart, rend, &mask);
        proof {
            let lo = profile_lo(next, rstart);
            let hi = profile_hi(next);
            assert forall|k: u64| #[trigger] m@.contains_key(k) implies lo <= k < hi by {
                if !before.contains_key(k) {
                    assert(profile_bounds(rec, rstart, rend).start <= k);
                }
            }
        }
        i = i + 1;
    }
    proof {
        assert(records@.subrange(0, records@.len() as int) =~= records@);
    }
    Ok(m)
}

proof fn lemma_batch_err(
    recs: Seq<AlignmentRecord>,
    rstart: Option<u64>,
    rend: Option<u64>,
    policies: Seq<QueryLocusBlacklist>,
    k: int,
)
    requires
        0 < k <= recs.len(),
        batch_profile(recs.subrange(0, k - 1), rstart, rend, policies) is Ok,
        union_flags(policies, &recs[k - 1]) is None,
    ensures
        batch_profile(recs, rstart, rend, policies) == Err::<Map<u64, u64>, PileupError>(
            PileupError::Blacklist,
        ),
{
    assert(recs.subrange(0, k).drop_last() =~= recs.subrange(0, k - 1));
    lemma_batch_err_rest(recs, rstart, rend, policies, k, PileupError::Blacklist);
}

proof fn lemma_batch_err_rest(
    recs: Seq<AlignmentRecord>,
    rstart: Option<u64>,
    rend: Option<u64>,
    policies: Seq<QueryLocusBlacklist>,
    k: int,
    e: PileupError,
)
    requires
        0 < k <= recs.len(),
        batch_profile(recs.subrange(0, k), rstart, rend, policies) == Err::<
            Map<u64, u64>,
            PileupError,
        >(e),
    ensures
        batch_profile(recs, rstart, rend, policies) == Err::<Map<u64, u64>, PileupError>(e),
    decreases recs.len() - k,
{
    if k < recs.len() {
        assert(recs.subrange(0, k + 1).drop_last() =~= recs.subrange(0, k));
        lemma_batch_err_rest(recs, rstart, rend, policies, k + 1, e);
    } else {
        assert(recs.subrange(0, k) =~= recs);
    }
}

/// The layout that profile `m` gives over `[lo, hi)`: each key in
/// increasing order, with one column more than its insertion count.
pub open spec fn layout_of(m: Map<u64, u64>, lo: int, hi: int) -> Seq<(u64, u64)>
    decreases hi - lo,
{
    if hi <= lo {
        seq![]
    } else {
        let p = (hi - 1) as u64;
        let pre = layout_of(m, lo, hi - 1);
        if m.contains_key(p) {
            pre.push((p, (m[p] + 1) as u64))
        } else {
            pre
        }
    }
}

/// What the counts become after adding `rec`, blacklisted by `policies`.
pub open spec fn record_acc(
    cols: Map<u64, (usize, usize)>,
    t: int,
    rs: int,
    re: int,
    cnts: Seq<u32>,
    rec: &AlignmentRecord,
    policies: Seq<QueryLocusBlacklist>,
) -> Result<Seq<u32>, PileupError> {
    match union_flags(policies, rec) {
        None => Err(PileupError::Blacklist),
        Some(mask) => {
            let w = acc_walk(
                cols,
                t,
                record_bounds(rec, rs, re),
                rec.spec_seq(),
                mask,
                cnts,
                aligned_pairs(rec.spec_cigar(), rec.spec_pos()),
            );
            match w.2 {
                Flow::Fail(e) => Err(e),
                _ => Ok(w.0),
            }
        },
    }
}

/// What the counts become after adding `recs` in order.
pub open spec fn records_acc(
    cols: Map<u64, (usize, usize)>,
    t: int,
    rs: int,
    re: int,
    cnts: Seq<u32>,
    recs: Seq<AlignmentRecord>,
    policies: Seq<QueryLocusBlacklist>,
) -> Result<Seq<u32>, PileupError>
    decreases recs.len(),
{
    if recs.len() == 0 {
        Ok(cnts)
    } else {
        match records_acc(cols, t, rs, re, cnts, recs.drop_last(), policies) {
            Err(e) => Err(e),
            Ok(c) => record_acc(cols, t, rs, re, c, &recs.last(), policies),
        }
    }
}

impl PlpCnts {
    /// Adds the bases of `rec` to the counts, skipping the query offsets
    /// that `policies` blacklist. On an error the counts may hold part of
    /// the record.
    pub fn update_with_record(&mut self, rec: &AlignmentRecord, policies: &Vec<QueryLocusBlacklist>) -> (r:
        Result<(), PileupError>)
        requires
            old(self).wf(),
            rec.wf(),
            policies_wf(policies@),
            reaches_layout(
                old(self).spec_columns(),
                rec,
                old(self).spec_ref_start() as int,
                old(self).spec_ref_end() as int,
            ),
        ensures
            final(self).wf(),
            final(self).spec_major() == old(self).spec_major(),
            final(self).spec_minor() == old(self).spec_minor(),
            final(self).spec_columns() == old(self).spec_columns(),
            final(self).spec_timesteps() == old(self).spec_timesteps(),
            final(self).spec_ref_start() == old(self).spec_ref_start(),
            final(self).spec_ref_end() == old(self).spec_ref_end(),
            ({
                let a = record_acc(
                    old(self).spec_columns(),
                    old(self).spec_timesteps() as int,
                    old(self).spec_ref_start() as int,
                    old(self).spec_ref_end() as int,
                    old(self).spec_cnts(),
                    rec,
                    policies@,
                );
                match r {
                    Ok(()) => a == Ok::<Seq<u32>, PileupError>(final(self).spec_cnts()),
                    Err(e) => a == Err::<Seq<u32>, PileupError>(e),
                }
            }),
    {
        let mask = match get_query_locus_blacklist(rec, policies) {
            Some(mask) => mask,
            None => {
                return Err(PileupError::Blacklist);
            },
        };
        self.update_with_record_masked(rec, &mask)
    }

    /// Adds every record in order; stops at the first error.
    pub fn update_with_records(&mut self, records: &Vec<AlignmentRecord>, policies: &Vec<QueryLocusBlacklist>) -> (r:
        Result<(), PileupError>)
        requires
            old(self).wf(),
            records_wf(records@),
            policies_wf(policies@),
            all_reach_layout(
                old(self).spec_columns(),
                records@,
                old(self).spec_ref_start() as int,
                old(self).spec_ref_end() as int,
            ),
        ensures
            final(self).wf(),
            final(self).spec_major() == old(self).spec_major(),
            final(self).spec_minor() == old(self).spec_minor(),
            final(self).spec_columns() == old(self).spec_columns(),
            final(self).spec_timesteps() == old(self).spec_timesteps(),
            final(self).spec_ref_start() == old(self).spec_ref_start(),
            final(self).spec_ref_end() == old(self).spec_ref_end(),
            ({
                let a = records_acc(
                    old(self).spec_columns(),
                    old(self).spec_timesteps() as int,
                    old(self).spec_ref_start() as int,
                    old(self).spec_ref_end() as int,
                    old(self).spec_cnts(),
                    records@,
                    policies@,
                );
                match r {
                    Ok(()) => a == Ok::<Seq<u32>, PileupError>(final(self).spec_cnts()),
                    Err(e) => a == Err::<Seq<u32>, PileupError>(e),
                }
            }),
    {
        let ghost cols = self.spec_columns();
        let ghost t = self.spec_timesteps() as int;
        let ghost rs = self.spec_ref_start() as int;
        let ghost re = self.spec_ref_end() as int;
        let ghost c0 = self.spec_cnts();
        let mut i: usize = 0;
        proof {
            assert(records@.subrange(0, 0) =~= Seq::<AlignmentRecord>::empty());
        }
        while i < records.len()
            invariant
                0 <= i <= records@.len(),
                self.wf(),
                records_wf(records@),
                policies_wf(policies@),
                cols == self.spec_columns(),
                t == self.spec_timesteps(),
                rs == self.spec_ref_start(),
                re == self.spec_ref_end(),
                self.spec_major() == old(self).spec_major(),
                self.spec_minor() == old(self).spec_minor(),
                cols == old(self).spec_columns(),
                t == old(self).spec_timesteps(),
                rs == old(self).spec_ref_start(),
                re == old(self).spec_ref_end(),
                c0 == old(self).spec_cnts(),
                records_acc(cols, t, rs, re, c0, records@.subrange(0, i as int), policies@) == Ok::<
                    Seq<u32>,
                    PileupError,
                >(self.spec_cnts()),
                all_reach_layout(cols, records@, rs, re),
            decreases records@.len() - i,
        {
            let ghost next = records@.subrange(0, i as int + 1);
            proof {
                assert(next.drop_last() =~= records@.subrange(0, i as int));
                assert(next.last() == records@[i as int]);
                assert(records@[i as int].wf());
            }
            proof {
                assert(reaches_layout(cols, &records@[i as int], rs, re));
            }
            match self.update_with_record(&records[i], policies) {
                Ok(()) => {},
                Err(e) => {
                    proof {
                        lemma_acc_err_rest(cols, t, rs, re, c0, records@, policies@, i as int + 1, e);
                    }
                    return Err(e);
                },
            }
            i = i + 1;
        }
        proof {
            assert(records@.subrange(0, records@.len() as int) =~= records@);
        }
        Ok(())
    }

    /// Builds the pileup of `records` within the optional reference window
    /// `[rstart, rend)`: first the insertion profile, then a grid with one
    /// column per reached position plus one per insertion slot, then the
    /// counts.
    pub fn from_records(
        records: &Vec<AlignmentRecord>,
        rstart: Option<u64>,
        rend: Option<u64>,
        policies: &Vec<QueryLocusBlacklist>,
    ) -> (r: Result<Self, PileupError>)
        requires
            records_wf(records@),
            policies_wf(policies@),
        ensures
            r is Ok <==> from_records_ok(records@, rstart, rend, policies@),
            r is Ok ==> ({
                let p = r->Ok_0;
                let m = batch_profile(records@, rstart, rend, policies@)->Ok_0;
                let l = layout_of(m, profile_lo(records@, rstart), profile_hi(records@));
                &&& p.wf()
                &&& p.spec_major() == expand_major(l)
                &&& p.spec_minor() == expand_minor(l)
                &&& p.spec_timesteps() == sum_widths(l)
                &&& p.spec_timesteps() == profile_columns(m, profile_lo(records@, rstart), profile_hi(records@))
                &&& keys_within(m, profile_lo(records@, rstart), profile_hi(records@))
                &&& p.spec_columns() == columns_of(l)
                &&& p.spec_ref_start() == l[0].0
                &&& p.spec_ref_end() == layout_ref_end(l)
                &&& records_acc(
                    columns_of(l),
                    sum_widths(l) as int,
                    l[0].0 as int,
                    layout_ref_end(l) as int,
                    Seq::new(10 * sum_widths(l), |i: int| 0u32),
                    records@,
                    policies@,
                ) == Ok::<Seq<u32>, PileupError>(p.spec_cnts())
            }),
    {
        let m = match compute_max_ins_of_each_ref_position(records, rstart, rend, policies) {
            Ok(m) => m,
            Err(e) => {
                return Err(e);
            },
        };
        let (lo, hi) = profile_range(records, rstart);
        let ghost gm = m@;
        let mut layout: Vec<(u64, u64)> = Vec::new();
        let mut p: u64 = lo;
        if hi < lo {
            p = hi;
        }
        proof {
            assert(layout@ =~= layout_of(gm, lo as int, p as int));
            lemma_layout_of_below(gm, lo as int, p as int);
        }
        while p < hi
            invariant
                (lo <= p <= hi) || (hi < lo && p == hi),
                lo as int == profile_lo(records@, rstart),
                hi as int == profile_hi(records@),
                gm == m@,
                batch_profile(records@, rstart, rend, policies@) == Ok::<Map<u64, u64>, PileupError>(gm),
                layout@ == layout_of(gm, lo as int, p as int),
                forall|k: u64| #[trigger] gm.contains_key(k) && lo <= k < p ==> gm[k] < u64::MAX,
            decreases hi - p,
        {
            match m.get(&p) {
                Some(v) => {
                    if *v == u64::MAX {
                        proof {
                            assert(gm.contains_key(p) && gm[p] == u64::MAX);
                            assert(batch_profile(records@, rstart, rend, policies@)->Ok_0 == gm);
                        }
                        return Err(PileupError::TooLarge);
                    }
                    layout.push((p, *v + 1));
                },
                None => {},
            }
            p = p + 1;
        }
        proof {
            assert forall|k: u64| #[trigger] gm.contains_key(k) implies gm[k] < u64::MAX by {}
            lemma_profile_layout(gm, lo as int, hi as int);
            lemma_profile_layout_columns(gm, lo as int, hi as int);
            if hi < lo {
                lemma_layout_of_below(gm, lo as int, hi as int);
            }
        }
        if layout.len() == 0 {
            return Err(PileupError::EmptyLayout);
        }
        let ghost gl = layout@;
        let mut plp = match PlpCnts::new(layout) {
            Ok(plp) => plp,
            Err(e) => {
                return Err(e);
            },
        };
        let mut j: usize = 0;
        while j < records.len()
            invariant
                0 <= j <= records@.len(),
                records_wf(records@),
                plp.wf(),
                gl == layout_of(gm, lo as int, hi as int),
                batch_profile(records@, rstart, rend, policies@) == Ok::<Map<u64, u64>, PileupError>(gm),
                lo as int == profile_lo(records@, rstart),
                hi as int == profile_hi(records@),
                plp.spec_columns() == columns_of(gl),
                plp.spec_timesteps() == sum_widths(gl),
                plp.spec_ref_start() == gl[0].0,
                plp.spec_ref_end() == layout_ref_end(gl),
                plp.spec_cnts() == Seq::new(10 * sum_widths(gl), |i: int| 0u32),
                plp.spec_major() == expand_major(gl),
                plp.spec_minor() == expand_minor(gl),
                forall|k: int| 0 <= k < j ==> reaches_layout(
                    plp.spec_columns(),
                    #[trigger] &records@[k],
                    plp.spec_ref_start() as int,
                    plp.spec_ref_end() as int,
                ),
            decreases records@.len() - j,
        {
            proof {
                assert(records@[j as int].wf());
            }
            match plp.missing_position(&records[j]) {
                Some(x) => {
                    proof {
                        if from_records_ok(records@, rstart, rend, policies@) {
                            lemma_records_acc_reach(
                                plp.spec_columns(),
                                plp.spec_timesteps() as int,
                                plp.spec_ref_start() as int,
                                plp.spec_ref_end() as int,
                                plp.spec_cnts(),
                                records@,
                                policies@,
                            );
                            assert(reaches_layout(
                                plp.spec_columns(),
                                &records@[j as int],
                                plp.spec_ref_start() as int,
                                plp.spec_ref_end() as int,
                            ));
                        }
                    }
                    return Err(PileupError::MissingRefPosition(x));
                },
                None => {},
            }
            j = j + 1;
        }
        match plp.update_with_records(records, policies) {
            Ok(()) => {},
            Err(e) => {
                return Err(e);
            },
        }
        Ok(plp)
    }
}

/// When `PlpCnts::from_records` succeeds: every blacklist rule applies,
/// no insertion count is at its largest value, some position is reached,
/// the grid fits in memory, and every record fits the grid.
pub open spec fn from_records_ok(
    records: Seq<AlignmentRecord>,
    rstart: Option<u64>,
    rend: Option<u64>,
    policies: Seq<QueryLocusBlacklist>,
) -> bool {
    let bp = batch_profile(records, rstart, rend, policies);
    let m = bp->Ok_0;
    let l = layout_of(m, profile_lo(records, rstart), profile_hi(records));
    &&& bp is Ok
    &&& forall|k: u64| #[trigger] m.contains_key(k) ==> m[k] < u64::MAX
    &&& l.len() > 0
    &&& 10 * sum_widths(l) <= usize::MAX
    &&& records_acc(
        columns_of(l),
        sum_widths(l) as int,
        l[0].0 as int,
        layout_ref_end(l) as int,
        Seq::new(10 * sum_widths(l), |i: int| 0u32),
        records,
        policies,
    ) is Ok
}

proof fn lemma_layout_of_below(m: Map<u64, u64>, lo: int, hi: int)
    requires
        hi <= lo,
    ensures
        layout_of(m, lo, hi) == Seq::<(u64, u64)>::empty(),
{
}

/// `profile_lo` and `profile_hi` of the records.
fn profile_range(records: &Vec<AlignmentRecord>, rstart: Option<u64>) -> (r: (u64, u64))
    requires
        records_wf(records@),
    ensures
        r.0 == profile_lo(records@, rstart),
        r.1 == profile_hi(records@),
{
    let mut lo: u64 = match rstart {
        Some(s) => s,
        None => u64::MAX,
    };
    let mut hi: u64 = 0;
    let mut i: usize = 0;
    proof {
        assert(records@.subrange(0, 0) =~= Seq::<AlignmentRecord>::empty());
    }
    while i < records.len()
        invariant
            0 <= i <= records@.len(),
            records_wf(records@),
            lo == profile_lo(records@.subrange(0, i as int), rstart),
            hi == profile_hi(records@.subrange(0, i as int)),
        decreases records@.len() - i,
    {
        let ghost next = records@.subrange(0, i as int + 1);
        proof {
            assert(next.drop_last() =~= records@.subrange(0, i as int));
            assert(next.last() == records@[i as int]);
            assert(records@[i as int].wf());
        }
        let s = records[i].reference_start();
        let e = records[i].reference_end();
        if rstart.is_none() && s < lo {
            lo = s;
        }
        if e > hi {
            hi = e;
        }
        i = i + 1;
    }
    proof {
        assert(records@.subrange(0, records@.len() as int) =~= records@);
    }
    (lo, hi)
}

proof fn lemma_acc_err_rest(
    cols: Map<u64, (usize, usize)>,
    t: int,
    rs: int,
    re: int,
    c0: Seq<u32>,
    recs: Seq<AlignmentRecord>,
    policies: Seq<QueryLocusBlacklist>,
    k: int,
    e: PileupError,
)
    requires
        0 < k <= recs.len(),
        records_acc(cols, t, rs, re, c0, recs.subrange(0, k - 1), policies) is Ok,
        record_acc(
            cols,
            t,
            rs,
            re,
            records_acc(cols, t, rs, re, c0, recs.subrange(0, k - 1), policies)->Ok_0,
            &recs[k - 1],
            policies,
        ) == Err::<Seq<u32>, PileupError>(e),
    ensures
        records_acc(cols, t, rs, re, c0, recs, policies) == Err::<Seq<u32>, PileupError>(e),
{
    assert(recs.subrange(0, k).drop_last() =~= recs.subrange(0, k - 1));
    lemma_acc_err_more(cols, t, rs, re, c0, recs, policies, k, e);
}

proof fn lemma_acc_err_more(
    cols: Map<u64, (usize, usize)>,
    t: int,
    rs: int,
    re: int,
    c0: Seq<u32>,
    recs: Seq<AlignmentRecord>,
    policies: Seq<QueryLocusBlacklist>,
    k: int,
    e: PileupError,
)
    requires
        0 < k <= recs.len(),
        records_acc(cols, t, rs, re, c0, recs.subrange(0, k), policies) == Err::<
            Seq<u32>,
            PileupError,
        >(e),
    ensures
        records_acc(cols, t, rs, re, c0, recs, policies) == Err::<Seq<u32>, PileupError>(e),
    decreases recs.len() - k,
{
    if k < recs.len() {
        assert(recs.subrange(0, k + 1).drop_last() =~= recs.subrange(0, k));
        lemma_acc_err_more(cols, t, rs, re, c0, recs, policies, k + 1, e);
    } else {
        assert(recs.subrange(0, k) =~= recs);
    }
}

/// The layout built from an insertion profile holds exactly one entry per
/// reference position of the profile in `[lo, hi)`, in increasing order,
/// and gives that position one column plus one per inserted base; with
/// `PlpCnts::new` (which gives each entry as many columns as its width) the
/// grid thus has one column per position plus its insertion count.
/// Columns that a profile asks for over `[lo, hi)`: for each of its
/// positions there, one plus the position's insertion count.
pub open spec fn profile_columns(m: Map<u64, u64>, lo: int, hi: int) -> nat
    decreases hi - lo,
{
    if hi <= lo {
        0
    } else {
        let p = (hi - 1) as u64;
        profile_columns(m, lo, hi - 1) + if m.contains_key(p) {
            (m[p] + 1) as nat
        } else {
            0nat
        }
    }
}

/// The layout of a profile has as many columns as the profile asks for.
pub proof fn lemma_profile_layout_columns(m: Map<u64, u64>, lo: int, hi: int)
    requires
        forall|k: u64| #[trigger] m.contains_key(k) ==> m[k] < u64::MAX,
    ensures
        sum_widths(layout_of(m, lo, hi)) == profile_columns(m, lo, hi),
    decreases hi - lo,
{
    if hi > lo {
        lemma_profile_layout_columns(m, lo, hi - 1);
        let p = (hi - 1) as u64;
        let pre = layout_of(m, lo, hi - 1);
        if m.contains_key(p) {
            assert(layout_of(m, lo, hi).drop_last() =~= pre);
        }
    }
}

pub proof fn lemma_profile_layout(m: Map<u64, u64>, lo: int, hi: int)
    requires
        forall|k: u64| #[trigger] m.contains_key(k) ==> m[k] < u64::MAX,
        0 <= lo,
        hi <= u64::MAX,
    ensures
        layout_ok(layout_of(m, lo, hi)),
        forall|i: int|
            0 <= i < layout_of(m, lo, hi).len() ==> {
                let e = #[trigger] layout_of(m, lo, hi)[i];
                &&& m.contains_key(e.0)
                &&& e.1 == m[e.0] + 1
                &&& lo <= e.0 < hi
            },
        forall|k: u64|
            #[trigger] m.contains_key(k) && lo <= k < hi ==> exists|i: int|
                0 <= i < layout_of(m, lo, hi).len() && #[trigger] layout_of(m, lo, hi)[i].0 == k,
    decreases hi - lo,
{
    if hi > lo {
        lemma_profile_layout(m, lo, hi - 1);
        let pre = layout_of(m, lo, hi - 1);
        let l = layout_of(m, lo, hi);
        let p = (hi - 1) as u64;
        assert forall|i: int| 0 <= i < l.len() implies {
            let e = #[trigger] l[i];
            &&& m.contains_key(e.0)
            &&& e.1 == m[e.0] + 1
            &&& lo <= e.0 < hi
        } by {
            if i < pre.len() {
                assert(l[i] == pre[i]);
            }
        }
        assert forall|k: u64| #[trigger] m.contains_key(k) && lo <= k < hi implies exists|i: int|
            0 <= i < l.len() && #[trigger] l[i].0 == k by {
            if k == p {
                assert(l[l.len() - 1].0 == k);
            } else {
                let i = choose|i: int| 0 <= i < pre.len() && #[trigger] pre[i].0 == k;
                assert(l[i] == pre[i]);
            }
        }
        assert(layout_ok(l)) by {
            assert forall|i: int| 0 <= i < l.len() implies #[trigger] l[i].1 >= 1 by {
                if i < pre.len() {
                    assert(l[i] == pre[i]);
                }
            }
            assert forall|i: int, j: int| 0 <= i < j < l.len() implies l[i].0 < l[j].0 by {
                assert(l[i] == pre[i]);
                if j < pre.len() {
                    assert(l[j] == pre[j]);
                    assert(pre[i].0 < pre[j].0);
                }
            }
        }
    }
}

} // verus!
