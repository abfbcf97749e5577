use vstd::prelude::*;
use crate::plp::{byte_chars, bytes_to_string};
use crate::record::{aligned_pairs, AlignedPair, AlignmentRecord};

verus! {

/// Where drawing an alignment stands: last reference position seen,
/// whether drawing has ended, the reference and query rows drawn, and
/// whether every reference position so far lay inside the reference.
pub type DrawState = (Option<u64>, bool, Seq<u8>, Seq<u8>, bool);

/// One column of the drawing: `-` where a side has no base.
pub open spec fn draw_step(
    seq: Seq<u8>,
    ref_seq: Seq<u8>,
    r_start: Option<usize>,
    r_end: Option<usize>,
    st: DrawState,
    pair: AlignedPair,
) -> DrawState {
    let (cursor, stopped, rs, qs, ok) = st;
    let q = pair.0;
    let r = pair.1;
    let cur = if r is Some {
        r
    } else {
        cursor
    };
    if stopped || !ok {
        st
    } else if r_start is Some && (cur is None || cur->0 < r_start->0) {
        (cur, false, rs, qs, true)
    } else if r is Some && r->0 >= ref_seq.len() {
        (cur, false, rs, qs, false)
    } else {
        let qc = if q is Some {
            seq[q->0 as int]
        } else {
            45u8
        };
        let rc = if r is Some {
            ref_seq[r->0 as int]
        } else {
            45u8
        };
        let stop = r_end is Some && cur is Some && cur->0 + 1 >= r_end->0;
        (cur, stop, rs.push(rc), qs.push(qc), true)
    }
}

pub open spec fn draw_walk(
    seq: Seq<u8>,
    ref_seq: Seq<u8>,
    r_start: Option<usize>,
    r_end: Option<usize>,
    pairs: Seq<AlignedPair>,
) -> DrawState
    decreases pairs.len(),
{
    if pairs.len() == 0 {
        (None, false, seq![], seq![], true)
    } else {
        draw_step(
            seq,
            ref_seq,
            r_start,
            r_end,
            draw_walk(seq, ref_seq, r_start, r_end, pairs.drop_last()),
            pairs.last(),
        )
    }
}

/// The alignment drawn as two rows, reference over query, from the first
/// column at or after reference position `r_start` up to the column of
/// position `r_end - 1`; `None` if a reference position lies past the end
/// of `ref_seq`.
pub fn draw_aligned_seq(
    record: &AlignmentRecord,
    ref_seq: &[u8],
    r_start: Option<usize>,
    r_end: Option<usize>,
) -> (r: Option<(String, String)>)
    requires
        record.wf(),
    ensures
        ({
            let d = draw_walk(
                record.spec_seq(),
                ref_seq@,
                r_start,
                r_end,
                aligned_pairs(record.spec_cigar(), record.spec_pos()),
            );
            &&& r is Some <==> d.4
            &&& r is Some ==> r->Some_0.0@ == byte_chars(d.2) && r->Some_0.1@ == byte_chars(d.3)
        }),
{
    let pairs = record.aligned_pairs_full();
    let seq = record.seq();
    let ghost s = seq@;
    proof {
        crate::plp::lemma_pairs_bounds(record.spec_cigar(), record.spec_pos());
        assert(pairs@.subrange(0, 0) =~= Seq::<AlignedPair>::empty());
    }
    let mut cursor: Option<u64> = None;
    let mut stopped = false;
    let mut ref_row: Vec<u8> = Vec::new();
    let mut query_row: Vec<u8> = Vec::new();
    let mut i: usize = 0;
    while i < pairs.len()
        invariant
            0 <= i <= pairs@.len(),
            record.wf(),
            s == record.spec_seq(),
            s == seq@,
            s.len() == crate::cigar::sum_qlen(record.spec_cigar()),
            pairs@ == aligned_pairs(record.spec_cigar(), record.spec_pos()),
            forall|k: int|
                0 <= k < pairs@.len() ==> {
                    let p = #[trigger] pairs@[k];
                    &&& p.0 is Some ==> p.0->0 < crate::cigar::sum_qlen(record.spec_cigar())
                },
            draw_walk(s, ref_seq@, r_start, r_end, pairs@.subrange(0, i as int)) == (
                cursor,
                stopped,
                ref_row@,
                query_row@,
                true,
            ),
        decreases pairs@.len() - i,
    {
        let ghost prefix = pairs@.subrange(0, i as int + 1);
        proof {
            assert(prefix.drop_last() =~= pairs@.subrange(0, i as int));
            assert(prefix.last() == pairs@[i as int]);
        }
        if stopped {
            i = i + 1;
            continue;
        }
        let (q, r) = pairs[i];
        if r.is_some() {
            cursor = r;
        }
        if let Some(s0) = r_start {
            let before = match cursor {
                None => true,
                Some(c) => c < s0 as u64,
            };
            if before {
                i = i + 1;
                continue;
            }
        }
        let rc: u8 = match r {
            Some(rp) => {
                if rp >= ref_seq.len() as u64 {
                    proof {
                        lemma_draw_fails(s, ref_seq@, r_start, r_end, pairs@, i as int + 1);
                        assert(pairs@.subrange(0, pairs@.len() as int) =~= pairs@);
                    }
                    return None;
                }
                ref_seq[rp as usize]
            },
            None => 45u8,
        };
        let qc: u8 = match q {
            Some(qp) => seq[qp as usize],
            None => 45u8,
        };
        ref_row.push(rc);
        query_row.push(qc);
        if let Some(e) = r_end {
            if let Some(c) = cursor {
                if c as u128 + 1 >= e as u128 {
                    stopped = true;
                }
            }
        }
        i = i + 1;
    }
    proof {
        assert(pairs@.subrange(0, pairs@.len() as int) =~= pairs@);
    }
    Some((bytes_to_string(ref_row), bytes_to_string(query_row)))
}

/// Once a reference position falls outside the reference, drawing fails.
proof fn lemma_draw_fails(
    seq: Seq<u8>,
    ref_seq: Seq<u8>,
    r_start: Option<usize>,
    r_end: Option<usize>,
    pairs: Seq<AlignedPair>,
    k: int,
)
    requires
        0 < k <= pairs.len(),
        !draw_walk(seq, ref_seq, r_start, r_end, pairs.subrange(0, k)).4,
    ensures
        !draw_walk(seq, ref_seq, r_start, r_end, pairs.subrange(0, pairs.len() as int)).4,
    decreases pairs.len() - k,
{
    if k < pairs.len() {
        assert(pairs.subrange(0, k + 1).drop_last() =~= pairs.subrange(0, k));
        lemma_draw_fails(seq, ref_seq, r_start, r_end, pairs, k + 1);
    }
}

} // verus!
