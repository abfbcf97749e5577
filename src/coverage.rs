use vstd::prelude::*;
use crate::cigar::{qend_spec, qstart_spec, sum_aligned_qlen, sum_qlen, sum_rlen, CigarOp};
use crate::plp::{
    acc_step, acc_walk, initial_cursor, record_acc, record_bounds, records_acc, records_wf,
    AccCursor, Flow, PlpCnts, WalkBounds,
};
use crate::blacklist::{union_flags, QueryLocusBlacklist};
use crate::record::AlignmentRecord;
use crate::record::{aligned_pairs, op_pairs, AlignedPair};

verus! {

/// Soft clips only at the two ends; no hard clips and no padding.
pub open spec fn plain_cigar(ops: Seq<CigarOp>) -> bool {
    forall|i: int|
        0 <= i < ops.len() ==> (#[trigger] ops[i] is SoftClip ==> i == 0 || i == ops.len() - 1)
            && !(ops[i] is HardClip) && !(ops[i] is Pad)
}

/// How many columns hold a reference base.
pub open spec fn count_ref(pairs: Seq<AlignedPair>) -> nat
    decreases pairs.len(),
{
    if pairs.len() == 0 {
        0
    } else {
        count_ref(pairs.drop_last()) + if pairs.last().1 is Some {
            1nat
        } else {
            0nat
        }
    }
}

pub proof fn lemma_count_ref_concat(a: Seq<AlignedPair>, b: Seq<AlignedPair>)
    ensures
        count_ref(a + b) == count_ref(a) + count_ref(b),
    decreases b.len(),
{
    if b.len() == 0 {
        assert(a + b =~= a);
    } else {
        assert((a + b).drop_last() =~= a + b.drop_last());
        lemma_count_ref_concat(a, b.drop_last());
    }
}

proof fn lemma_count_ref_all(s: Seq<AlignedPair>)
    requires
        forall|i: int| 0 <= i < s.len() ==> (#[trigger] s[i]).1 is Some,
    ensures
        count_ref(s) == s.len(),
    decreases s.len(),
{
    if s.len() > 0 {
        lemma_count_ref_all(s.drop_last());
    }
}

proof fn lemma_count_ref_none(s: Seq<AlignedPair>)
    requires
        forall|i: int| 0 <= i < s.len() ==> (#[trigger] s[i]).1 is None,
    ensures
        count_ref(s) == 0,
    decreases s.len(),
{
    if s.len() > 0 {
        lemma_count_ref_none(s.drop_last());
    }
}

/// Counting over a longer prefix never gives less, nor more than the whole.
pub proof fn lemma_count_ref_prefix(s: Seq<AlignedPair>, j: int, k: int)
    requires
        0 <= j <= k <= s.len(),
    ensures
        count_ref(s.subrange(0, j)) <= count_ref(s.subrange(0, k)),
        count_ref(s.subrange(0, k)) <= count_ref(s),
        (forall|i: int| j <= i < k ==> (#[trigger] s[i]).1 is None) ==> count_ref(
            s.subrange(0, j),
        ) == count_ref(s.subrange(0, k)),
    decreases s.len() - j,
{
    assert(s.subrange(0, k) =~= s.subrange(0, j) + s.subrange(j, k));
    lemma_count_ref_concat(s.subrange(0, j), s.subrange(j, k));
    assert(s =~= s.subrange(0, k) + s.subrange(k, s.len() as int));
    lemma_count_ref_concat(s.subrange(0, k), s.subrange(k, s.len() as int));
    if forall|i: int| j <= i < k ==> (#[trigger] s[i]).1 is None {
        let m = s.subrange(j, k);
        assert forall|i: int| 0 <= i < m.len() implies (#[trigger] m[i]).1 is None by {
            assert(m[i] == s[j + i]);
        }
        lemma_count_ref_none(m);
    }
}

proof fn lemma_op_pairs_ref(op: CigarOp, q: int, r: int)
    ensures
        count_ref(op_pairs(op, q, r)) == op.rlen(),
        op.consumes_ref() ==> forall|k: int|
            0 <= k < op_pairs(op, q, r).len() ==> (#[trigger] op_pairs(op, q, r)[k]).1 == Some(
                (r + k) as u64,
            ),
        !op.consumes_ref() ==> forall|k: int|
            0 <= k < op_pairs(op, q, r).len() ==> (#[trigger] op_pairs(op, q, r)[k]).1 is None,
{
    let b = op_pairs(op, q, r);
    if op.consumes_ref() {
        lemma_count_ref_all(b);
    } else {
        lemma_count_ref_none(b);
    }
}

/// Reference positions of the columns run `pos, pos + 1, ..` in order:
/// each column with a reference base holds `pos` plus the number of such
/// columns before it.
pub proof fn lemma_ref_positions(ops: Seq<CigarOp>, pos: int)
    ensures
        count_ref(aligned_pairs(ops, pos)) == sum_rlen(ops),
        forall|k: int|
            0 <= k < aligned_pairs(ops, pos).len() && (#[trigger] aligned_pairs(ops, pos)[k]).1 is Some
                ==> aligned_pairs(ops, pos)[k].1 == Some(
                (pos + count_ref(aligned_pairs(ops, pos).subrange(0, k))) as u64,
            ),
    decreases ops.len(),
{
    if ops.len() > 0 {
        let pre = ops.drop_last();
        let op = ops.last();
        lemma_ref_positions(pre, pos);
        let a = aligned_pairs(pre, pos);
        let b = op_pairs(op, sum_qlen(pre) as int, pos + sum_rlen(pre));
        let all = aligned_pairs(ops, pos);
        assert(all == a + b);
        lemma_count_ref_concat(a, b);
        lemma_op_pairs_ref(op, sum_qlen(pre) as int, pos + sum_rlen(pre));
        assert forall|k: int|
            0 <= k < all.len() && (#[trigger] all[k]).1 is Some implies all[k].1 == Some(
                (pos + count_ref(all.subrange(0, k))) as u64,
            ) by {
            if k < a.len() {
                assert(all.subrange(0, k) =~= a.subrange(0, k));
                assert(all[k] == a[k]);
            } else {
                let kk = k - a.len();
                assert(all[k] == b[kk]);
                assert(all.subrange(0, k) =~= a + b.subrange(0, kk));
                lemma_count_ref_concat(a, b.subrange(0, kk));
                if op.consumes_ref() {
                    let bs = b.subrange(0, kk);
                    assert forall|i: int| 0 <= i < bs.len() implies (#[trigger] bs[i]).1 is Some by {
                        assert(bs[i] == b[i]);
                    }
                    lemma_count_ref_all(bs);
                }
            }
        }
    }
}

/// In a plain alignment, the query length up to an operation before a
/// trailing soft clip is the leading clip plus the aligned length.
proof fn lemma_plain_qlen(ops: Seq<CigarOp>, j: int)
    requires
        plain_cigar(ops),
        1 <= j <= ops.len(),
        !(j == ops.len() && ops.len() > 1 && ops[ops.len() - 1] is SoftClip),
    ensures
        sum_qlen(ops.subrange(0, j)) == qstart_spec(ops) + sum_aligned_qlen(ops.subrange(0, j)),
    decreases j,
{
    let p = ops.subrange(0, j);
    assert(p.drop_last() =~= ops.subrange(0, j - 1));
    if j == 1 {
        assert(ops.subrange(0, 0) =~= Seq::<CigarOp>::empty());
        assert(sum_qlen(ops.subrange(0, 0)) == 0);
        assert(sum_aligned_qlen(ops.subrange(0, 0)) == 0);
        assert(p.last() == ops[0]);
        assert(!(ops[0] is HardClip) && !(ops[0] is Pad));
    } else {
        lemma_plain_qlen(ops, j - 1);
        assert(!(ops[j - 1] is SoftClip));
        assert(!(ops[j - 1] is HardClip) && !(ops[j - 1] is Pad));
    }
}

/// In a plain alignment, a query offset at or past the end of the aligned
/// part lies in the trailing soft clip: every reference position comes
/// before it, and no column after it holds a reference base.
pub proof fn lemma_past_query_end(ops: Seq<CigarOp>, pos: int, j: int)
    requires
        plain_cigar(ops),
        sum_qlen(ops) <= u32::MAX,
        0 <= pos,
        pos + sum_rlen(ops) <= u64::MAX,
        0 <= j < aligned_pairs(ops, pos).len(),
        aligned_pairs(ops, pos)[j].0 is Some,
        aligned_pairs(ops, pos)[j].0->0 >= qend_spec(ops),
    ensures
        count_ref(aligned_pairs(ops, pos).subrange(0, j)) == sum_rlen(ops),
        forall|k: int|
            j <= k < aligned_pairs(ops, pos).len() ==> (#[trigger] aligned_pairs(ops, pos)[k]).1 is None,
{
    let n = ops.len() as int;
    let all = aligned_pairs(ops, pos);
    crate::plp::lemma_pairs_bounds(ops, pos);
    lemma_ref_positions(ops, pos);
    if n > 1 && ops[n - 1] is SoftClip {
        let pre = ops.drop_last();
        let a = aligned_pairs(pre, pos);
        let b = op_pairs(ops[n - 1], sum_qlen(pre) as int, pos + sum_rlen(pre));
        assert(all == a + b);
        lemma_plain_qlen(ops, n - 1);
        assert(ops.subrange(0, n - 1) =~= pre);
        assert(sum_aligned_qlen(ops) == sum_aligned_qlen(pre));
        assert(plain_cigar(pre)) by {
            assert forall|i: int| 0 <= i < pre.len() implies (#[trigger] pre[i] is SoftClip ==> i == 0
                || i == pre.len() - 1) && !(pre[i] is HardClip) && !(pre[i] is Pad) by {
                assert(pre[i] == ops[i]);
            }
        }
        assert(qstart_spec(pre) == qstart_spec(ops)) by {
            if pre.len() > 0 {
                assert(pre[0] == ops[0]);
            }
        }
        crate::plp::lemma_pairs_bounds(pre, pos);
        if j < a.len() {
            assert(all[j] == a[j]);
            assert(false);
        }
        lemma_op_pairs_ref(ops[n - 1], sum_qlen(pre) as int, pos + sum_rlen(pre));
        assert(all.subrange(0, j) =~= a + b.subrange(0, j - a.len()));
        lemma_count_ref_concat(a, b.subrange(0, j - a.len()));
        let bs = b.subrange(0, j - a.len());
        assert forall|i: int| 0 <= i < bs.len() implies (#[trigger] bs[i]).1 is None by {
            assert(bs[i] == b[i]);
        }
        lemma_count_ref_none(bs);
        lemma_ref_positions(pre, pos);
        assert forall|k: int| j <= k < all.len() implies (#[trigger] all[k]).1 is None by {
            assert(all[k] == b[k - a.len()]);
        }
    } else {
        lemma_plain_qlen(ops, n);
        assert(ops.subrange(0, n) =~= ops);
        assert(false);
    }
}

/// Sum of rows `0..rows` of column `c` of a count table of `t` columns.
pub open spec fn col_total(cnts: Seq<u32>, t: int, c: int, rows: int) -> int
    decreases rows,
{
    if rows <= 0 {
        0
    } else {
        col_total(cnts, t, c, rows - 1) + cnts[(rows - 1) * t + c]
    }
}

/// Sum of all 10 rows of column `c`.
pub open spec fn column_sum(cnts: Seq<u32>, t: int, c: int) -> int {
    col_total(cnts, t, c, 10)
}

proof fn lemma_col_total_update(cnts: Seq<u32>, t: int, row: int, col: int, v: u32, c: int, rows: int)
    requires
        0 <= row < 10,
        0 <= col < t,
        0 <= c < t,
        0 <= rows <= 10,
        cnts.len() == 10 * t,
    ensures
        col_total(cnts.update(row * t + col, v), t, c, rows) == col_total(cnts, t, c, rows) + (
        if c == col && row < rows {
            v - cnts[row * t + col]
        } else {
            0
        }),
    decreases rows,
{
    if rows > 0 {
        lemma_col_total_update(cnts, t, row, col, v, c, rows - 1);
        let i = (rows - 1) * t + c;
        let j = row * t + col;
        assert(0 <= i < 10 * t) by (nonlinear_arith)
            requires
                0 <= rows - 1 < 10,
                0 <= c < t,
                i == (rows - 1) * t + c,
        ;
        assert(0 <= j < 10 * t) by (nonlinear_arith)
            requires
                0 <= row < 10,
                0 <= col < t,
                j == row * t + col,
        ;
        if i == j {
            assert(rows - 1 == row && c == col) by (nonlinear_arith)
                requires
                    i == (rows - 1) * t + c,
                    j == row * t + col,
                    i == j,
                    0 <= c < t,
                    0 <= col < t,
                    0 <= row,
                    0 <= rows - 1,
            ;
        } else {
            assert(!(rows - 1 == row && c == col));
        }
    }
}

/// The grid facts that the coverage argument needs: columns of each
/// position lie in the table, numbered by insertion slot from 0, and
/// distinct positions have distinct first columns.
pub open spec fn grid_ok(cols: Map<u64, (usize, usize)>, t: int, minor: Seq<u64>) -> bool {
    &&& minor.len() == t
    &&& forall|p: u64|
        #[trigger] cols.contains_key(p) ==> cols[p].0 + cols[p].1 <= t && cols[p].1 >= 1
    &&& forall|p: u64, k: int|
        #[trigger] cols.contains_key(p) && 0 <= k < cols[p].1 ==> #[trigger] minor[cols[p].0 + k] == k
    &&& forall|p: u64, q: u64|
        #[trigger] cols.contains_key(p) && #[trigger] cols.contains_key(q) && p != q ==> cols[p].0
            != cols[q].0
}

/// While the walk goes on: the first column of each position `x` has
/// gained one count where `x` lies in the window and among the first `r`
/// reference positions; the cursor sits on the last of those.
pub open spec fn cover_inv(
    cols: Map<u64, (usize, usize)>,
    t: int,
    b: WalkBounds,
    cnts0: Seq<u32>,
    pos: int,
    r: int,
    cnts: Seq<u32>,
    c: AccCursor,
) -> bool {
    &&& cnts.len() == 10 * t
    &&& forall|x: u64|
        #[trigger] cols.contains_key(x) ==> column_sum(cnts, t, cols[x].0 as int) == column_sum(
            cnts0,
            t,
            cols[x].0 as int,
        ) + if b.start <= x < b.end && x < pos + r {
            1int
        } else {
            0int
        }
    &&& c.rcur == if r > 0 {
        Some((pos + r - 1) as u64)
    } else {
        None::<u64>
    }
    &&& c.width > 0 ==> exists|y: u64|
        #[trigger] cols.contains_key(y) && c.anchor == cols[y].0 && c.width == cols[y].1
}

/// Once the walk has stopped: each position of the window has gained one
/// count at its first column.
pub open spec fn cover_done(
    cols: Map<u64, (usize, usize)>,
    t: int,
    b: WalkBounds,
    cnts0: Seq<u32>,
    cnts: Seq<u32>,
) -> bool {
    &&& cnts.len() == 10 * t
    &&& forall|x: u64|
        #[trigger] cols.contains_key(x) ==> column_sum(cnts, t, cols[x].0 as int) == column_sum(
            cnts0,
            t,
            cols[x].0 as int,
        ) + if b.start <= x < b.end {
            1int
        } else {
            0int
        }
}

/// One column of the walk keeps the coverage account.
#[verifier::rlimit(100)]
proof fn lemma_cover_step(
    cols: Map<u64, (usize, usize)>,
    t: int,
    minor: Seq<u64>,
    b: WalkBounds,
    seq: Seq<u8>,
    mask: Seq<bool>,
    cnts0: Seq<u32>,
    pos: int,
    rlen: int,
    r: int,
    cnts: Seq<u32>,
    c: AccCursor,
    pair: AlignedPair,
)
    requires
        grid_ok(cols, t, minor),
        0 <= r <= rlen,
        b.end <= pos + rlen,
        0 <= pos,
        pos + rlen <= u64::MAX,
        cover_inv(cols, t, b, cnts0, pos, r, cnts, c),
        pair.1 is Some ==> r < rlen && pair.1 == Some((pos + r) as u64),
        pair.0 is Some && pair.0->0 >= b.query_end ==> r == rlen && pair.1 is None,
        c.qcur is Some && c.qcur->0 >= b.query_end ==> r == rlen && pair.1 is None,
        pair.0 is Some ==> !mask[pair.0->0 as int],
        !(acc_step(cols, t, b, seq, mask, cnts, c, pair).2 is Fail),
    ensures
        ({
            let nx = acc_step(cols, t, b, seq, mask, cnts, c, pair);
            let r2 = if pair.1 is Some {
                r + 1
            } else {
                r
            };
            &&& nx.2 is Go ==> cover_inv(cols, t, b, cnts0, pos, r2, nx.0, nx.1)
            &&& nx.2 is Stop ==> cover_done(cols, t, b, cnts0, nx.0)
        }),
{
    let nx = acc_step(cols, t, b, seq, mask, cnts, c, pair);
    let q = pair.0;
    let rr = pair.1;
    let rcur = if rr is Some {
        rr
    } else {
        c.rcur
    };
    let qcur = if q is Some {
        q
    } else {
        c.qcur
    };
    let r2 = if rr is Some {
        r + 1
    } else {
        r
    };
    if rcur is None || rcur->0 < b.start {
        assert(nx.0 == cnts);
        assert(nx.2 is Go);
        assert(nx.1.rcur == rcur);
        assert(nx.1.anchor == c.anchor && nx.1.width == c.width);
        assert(cover_inv(cols, t, b, cnts0, pos, r2, nx.0, nx.1));
    } else if rcur->0 >= b.end {
        assert(nx.0 == cnts);
        assert(cover_done(cols, t, b, cnts0, nx.0));
    } else if qcur is Some && qcur->0 >= b.query_end {
        assert(nx.0 == cnts);
        assert(cover_done(cols, t, b, cnts0, nx.0));
    } else {
        let anchor = if rr is Some {
            cols[rr->0].0
        } else {
            c.anchor
        };
        let width = if rr is Some {
            cols[rr->0].1
        } else {
            c.width
        };
        let ins: int = if rr is Some {
            0
        } else {
            c.cur_ins + 1
        };
        let base = if q is Some {
            seq[q->0 as int]
        } else {
            45u8
        };
        let row = crate::plp::base_row(base, b.fwd)->Some_0;
        let col = anchor + ins;
        assert(ins < width);
        assert(col < t) by {
            if rr is Some {
                assert(cols.contains_key(rr->0));
            } else {
                let y = choose|y: u64|
                    #[trigger] cols.contains_key(y) && c.anchor == cols[y].0 && c.width == cols[y].1;
            }
        }
        let idx = row * t + col;
        assert(0 <= idx < 10 * t) by (nonlinear_arith)
            requires
                0 <= row < 10,
                0 <= col < t,
                idx == row * t + col,
        ;
        assert(nx.0 == cnts.update(idx, (cnts[idx] + 1) as u32));
        assert forall|x: u64| #[trigger] cols.contains_key(x) implies column_sum(nx.0, t, cols[x].0 as int)
            == column_sum(cnts, t, cols[x].0 as int) + if cols[x].0 == col {
            1int
        } else {
            0int
        } by {
            lemma_col_total_update(cnts, t, row as int, col, (cnts[idx] + 1) as u32, cols[x].0 as int, 10);
        }
        if rr is None {
            let y = choose|y: u64|
                #[trigger] cols.contains_key(y) && c.anchor == cols[y].0 && c.width == cols[y].1;
            assert(minor[cols[y].0 + ins] == ins);
            assert forall|x: u64| #[trigger] cols.contains_key(x) implies cols[x].0 != col by {
                assert(minor[cols[x].0 + 0] == 0);
            }
            assert(nx.1.anchor == c.anchor && nx.1.width == c.width && nx.1.rcur == c.rcur);
            assert forall|x: u64| #[trigger] cols.contains_key(x) implies column_sum(nx.0, t, cols[x].0 as int) == column_sum(
                cnts0,
                t,
                cols[x].0 as int,
            ) + if b.start <= x < b.end && x < pos + r2 {
                1int
            } else {
                0int
            } by {
                assert(cols[x].0 != col);
            }
        } else {
            let xp = rr->0;
            assert forall|x: u64| #[trigger] cols.contains_key(x) && x != xp implies cols[x].0 != col by {}
            assert(nx.1.anchor == cols[xp].0 && nx.1.width == cols[xp].1);
            assert(cols.contains_key(xp));
            assert(xp == pos + r);
            assert(nx.1.rcur == Some(xp));
            assert forall|x: u64| #[trigger] cols.contains_key(x) implies column_sum(nx.0, t, cols[x].0 as int) == column_sum(
                cnts0,
                t,
                cols[x].0 as int,
            ) + if b.start <= x < b.end && x < pos + r2 {
                1int
            } else {
                0int
            } by {
                if x == xp {
                    assert(cols[x].0 == col);
                } else {
                    assert(cols[x].0 != col);
                }
            }
        }
        assert(nx.2 is Go);
        assert(nx.0.len() == 10 * t);
        assert(nx.1.rcur == if r2 > 0 {
            Some((pos + r2 - 1) as u64)
        } else {
            None::<u64>
        });
        assert(nx.1.width > 0 ==> exists|y: u64|
            #[trigger] cols.contains_key(y) && nx.1.anchor == cols[y].0 && nx.1.width == cols[y].1);
        assert(cover_inv(cols, t, b, cnts0, pos, r2, nx.0, nx.1));
    }
}

/// The walk over a prefix of the columns of a plain alignment keeps the
/// coverage account.
proof fn lemma_cover_prefix(
    cols: Map<u64, (usize, usize)>,
    t: int,
    minor: Seq<u64>,
    b: WalkBounds,
    seq: Seq<u8>,
    mask: Seq<bool>,
    cnts0: Seq<u32>,
    ops: Seq<CigarOp>,
    pos: int,
    k: int,
)
    requires
        grid_ok(cols, t, minor),
        cnts0.len() == 10 * t,
        plain_cigar(ops),
        sum_qlen(ops) <= u32::MAX,
        0 <= pos,
        pos + sum_rlen(ops) <= u64::MAX,
        b.query_end == qend_spec(ops),
        b.end <= pos + sum_rlen(ops),
        b.start >= pos,
        mask.len() == sum_qlen(ops),
        forall|i: int| 0 <= i < mask.len() ==> !mask[i],
        0 <= k <= aligned_pairs(ops, pos).len(),
        !(acc_walk(cols, t, b, seq, mask, cnts0, aligned_pairs(ops, pos).subrange(0, k)).2 is Fail),
    ensures
        ({
            let pairs = aligned_pairs(ops, pos);
            let w = acc_walk(cols, t, b, seq, mask, cnts0, pairs.subrange(0, k));
            &&& w.2 is Go ==> cover_inv(cols, t, b, cnts0, pos, count_ref(pairs.subrange(0, k)) as int, w.0, w.1)
            &&& w.2 is Go ==> (w.1.qcur is Some ==> exists|j: int| 0 <= j < k && #[trigger] pairs[j].0 == w.1.qcur)
            &&& w.2 is Stop ==> cover_done(cols, t, b, cnts0, w.0)
        }),
    decreases k,
{
    let pairs = aligned_pairs(ops, pos);
    let rlen = sum_rlen(ops) as int;
    if k == 0 {
        assert(pairs.subrange(0, 0) =~= Seq::<AlignedPair>::empty());
        assert(count_ref(pairs.subrange(0, 0)) == 0);
    } else {
        let pk = pairs.subrange(0, k);
        let pp = pairs.subrange(0, k - 1);
        assert(pk.drop_last() =~= pp);
        assert(pk.last() == pairs[k - 1]);
        lemma_cover_prefix(cols, t, minor, b, seq, mask, cnts0, ops, pos, k - 1);
        let prev = acc_walk(cols, t, b, seq, mask, cnts0, pp);
        if prev.2 is Go {
            let r = count_ref(pp) as int;
            let pair = pairs[k - 1];
            crate::plp::lemma_pairs_bounds(ops, pos);
            lemma_ref_positions(ops, pos);
            lemma_count_ref_prefix(pairs, k - 1, k);
            lemma_count_ref_prefix(pairs, k, k);
            if pair.0 is Some && pair.0->0 >= b.query_end {
                lemma_past_query_end(ops, pos, k - 1);
            }
            if prev.1.qcur is Some && prev.1.qcur->0 >= b.query_end {
                let j = choose|j: int| 0 <= j < k - 1 && #[trigger] pairs[j].0 == prev.1.qcur;
                lemma_past_query_end(ops, pos, j);
                lemma_count_ref_prefix(pairs, j, k - 1);
            }
            lemma_cover_step(cols, t, minor, b, seq, mask, cnts0, pos, rlen, r, prev.0, prev.1, pair);
            let nx = acc_step(cols, t, b, seq, mask, prev.0, prev.1, pair);
            if nx.2 is Go && nx.1.qcur is Some {
                if pair.0 is Some {
                    assert(pairs[k - 1].0 == nx.1.qcur);
                } else {
                    let j = choose|j: int| 0 <= j < k - 1 && #[trigger] pairs[j].0 == prev.1.qcur;
                    assert(pairs[j].0 == nx.1.qcur);
                }
            }
        }
    }
}

/// How many of `recs` cover position `x` within the window `[rs, re)`.
pub open spec fn covering(recs: Seq<AlignmentRecord>, rs: int, re: int, x: int) -> int
    decreases recs.len(),
{
    if recs.len() == 0 {
        0
    } else {
        let b = record_bounds(&recs.last(), rs, re);
        covering(recs.drop_last(), rs, re, x) + if b.start <= x < b.end {
            1int
        } else {
            0int
        }
    }
}

/// Every alignment of `recs` is plain.
pub open spec fn records_plain(recs: Seq<AlignmentRecord>) -> bool {
    forall|i: int| 0 <= i < recs.len() ==> plain_cigar(#[trigger] recs[i].spec_cigar())
}

proof fn lemma_batch_cover(
    cols: Map<u64, (usize, usize)>,
    t: int,
    minor: Seq<u64>,
    rs: int,
    re: int,
    cnts0: Seq<u32>,
    recs: Seq<AlignmentRecord>,
    fin: Seq<u32>,
)
    requires
        grid_ok(cols, t, minor),
        cnts0.len() == 10 * t,
        0 <= rs <= u64::MAX,
        0 <= re <= u64::MAX,
        records_wf(recs),
        records_plain(recs),
        records_acc(cols, t, rs, re, cnts0, recs, Seq::<QueryLocusBlacklist>::empty()) == Ok::<
            Seq<u32>,
            crate::plp::PileupError,
        >(fin),
    ensures
        fin.len() == 10 * t,
        forall|x: u64|
            #[trigger] cols.contains_key(x) ==> column_sum(fin, t, cols[x].0 as int) == column_sum(
                cnts0,
                t,
                cols[x].0 as int,
            ) + covering(recs, rs, re, x as int),
    decreases recs.len(),
{
    if recs.len() > 0 {
        let pre = recs.drop_last();
        let rec = recs.last();
        assert(records_wf(pre)) by {
            assert forall|i: int| 0 <= i < pre.len() implies #[trigger] pre[i].wf() by {
                assert(pre[i] == recs[i]);
            }
        }
        assert(records_plain(pre)) by {
            assert forall|i: int| 0 <= i < pre.len() implies plain_cigar(#[trigger] pre[i].spec_cigar()) by {
                assert(pre[i] == recs[i]);
            }
        }
        assert(rec.wf() && plain_cigar(rec.spec_cigar())) by {
            assert(recs[recs.len() - 1] == rec);
        }
        let none = Seq::<QueryLocusBlacklist>::empty();
        let mid = records_acc(cols, t, rs, re, cnts0, pre, none);
        assert(mid is Ok);
        let c = mid->Ok_0;
        lemma_batch_cover(cols, t, minor, rs, re, cnts0, pre, c);
        let mask = Seq::new(rec.spec_seq().len(), |q: int| false);
        assert(union_flags(none, &rec) == Some(mask));
        let ops = rec.spec_cigar();
        let pos = rec.spec_pos();
        let pairs = aligned_pairs(ops, pos);
        let b = record_bounds(&rec, rs, re);
        crate::cigar::lemma_sum_qlen_bounds(ops);
        assert(pairs.subrange(0, pairs.len() as int) =~= pairs);
        lemma_cover_prefix(cols, t, minor, b, rec.spec_seq(), mask, c, ops, pos, pairs.len() as int);
        lemma_ref_positions(ops, pos);
        let w = acc_walk(cols, t, b, rec.spec_seq(), mask, c, pairs);
        if w.2 is Go {
            assert forall|x: u64| #[trigger] cols.contains_key(x) implies column_sum(w.0, t, cols[x].0 as int)
                == column_sum(c, t, cols[x].0 as int) + if b.start <= x < b.end {
                1int
            } else {
                0int
            } by {}
        }
        assert(cover_done(cols, t, b, c, w.0));
        assert(fin == w.0);
    } else {
        assert(fin == cnts0);
    }
}

proof fn lemma_zero_columns(t: int, c: int, rows: int)
    requires
        0 <= c < t,
        0 <= rows <= 10,
    ensures
        col_total(Seq::new((10 * t) as nat, |i: int| 0u32), t, c, rows) == 0,
    decreases rows,
{
    if rows > 0 {
        lemma_zero_columns(t, c, rows - 1);
        assert(0 <= (rows - 1) * t + c < 10 * t) by (nonlinear_arith)
            requires
                0 <= rows - 1 < 10,
                0 <= c < t,
        ;
    }
}

/// With no blacklist rule and alignments that keep soft clips at their
/// ends (no hard clips or padding), the counts at the first column of each
/// position of a pileup, summed over the 10 rows, equal the number of
/// records that cover the position within the pileup's window; a deletion
/// counts in the gap row.
pub proof fn lemma_pileup_column_totals(records: Seq<AlignmentRecord>, p: &PlpCnts)
    requires
        records_wf(records),
        records_plain(records),
        p.wf(),
        records_acc(
            p.spec_columns(),
            p.spec_timesteps() as int,
            p.spec_ref_start() as int,
            p.spec_ref_end() as int,
            Seq::new(10 * p.spec_timesteps(), |i: int| 0u32),
            records,
            Seq::<QueryLocusBlacklist>::empty(),
        ) == Ok::<Seq<u32>, crate::plp::PileupError>(p.spec_cnts()),
    ensures
        forall|x: u64|
            #[trigger] p.spec_columns().contains_key(x) ==> column_sum(
                p.spec_cnts(),
                p.spec_timesteps() as int,
                p.spec_columns()[x].0 as int,
            ) == covering(records, p.spec_ref_start() as int, p.spec_ref_end() as int, x as int),
{
    p.lemma_grid_columns();
    let t = p.spec_timesteps() as int;
    let cols = p.spec_columns();
    assert(grid_ok(cols, t, p.spec_minor()));
    lemma_batch_cover(
        cols,
        t,
        p.spec_minor(),
        p.spec_ref_start() as int,
        p.spec_ref_end() as int,
        Seq::new(10 * p.spec_timesteps(), |i: int| 0u32),
        records,
        p.spec_cnts(),
    );
    assert forall|x: u64| #[trigger] cols.contains_key(x) implies column_sum(
        Seq::new(10 * p.spec_timesteps(), |i: int| 0u32),
        t,
        cols[x].0 as int,
    ) == 0 by {
        lemma_zero_columns(t, cols[x].0 as int, 10);
    }
}

} // verus!
