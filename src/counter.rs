use vstd::prelude::*;

verus! {

/// Keys of `s` are pairwise distinct.
pub open spec fn keys_unique(s: Seq<(u64, usize)>) -> bool {
    forall|i: int, j: int| 0 <= i < j < s.len() ==> s[i].0 != s[j].0
}

/// The count of `k` in `s` (0 if absent).
pub open spec fn count_of(s: Seq<(u64, usize)>, k: u64) -> nat
    decreases s.len(),
{
    if s.len() == 0 {
        0
    } else if s.last().0 == k {
        s.last().1 as nat
    } else {
        count_of(s.drop_last(), k)
    }
}

/// Sum of all counts.
pub open spec fn sum_counts(s: Seq<(u64, usize)>) -> nat
    decreases s.len(),
{
    if s.len() == 0 {
        0
    } else {
        sum_counts(s.drop_last()) + s.last().1 as nat
    }
}

/// Counts of `u64` keys.
#[derive(Debug)]
pub struct Counter {
    counts: Vec<(u64, usize)>,
}

impl Counter {
    /// The `(key, count)` entries.
    pub closed spec fn entries(&self) -> Seq<(u64, usize)> {
        self.counts@
    }

    /// The count of `k`.
    pub open spec fn spec_get(&self, k: u64) -> nat {
        count_of(self.entries(), k)
    }

    /// The sum of all counts.
    pub open spec fn spec_total(&self) -> nat {
        sum_counts(self.entries())
    }

    pub open spec fn wf(&self) -> bool {
        keys_unique(self.entries()) && self.spec_total() <= usize::MAX
    }

    pub fn new() -> (r: Self)
        ensures
            r.wf(),
            forall|k: u64| r.spec_get(k) == 0,
            r.spec_total() == 0,
    {
        Counter { counts: Vec::new() }
    }

    fn find(&self, key: u64) -> (r: Option<usize>)
        requires
            self.wf(),
        ensures
            match r {
                Some(i) => i < self.counts@.len() && self.counts@[i as int].0 == key,
                None => forall|i: int| 0 <= i < self.counts@.len() ==> self.counts@[i].0 != key,
            },
    {
        let mut i: usize = 0;
        while i < self.counts.len()
            invariant
                0 <= i <= self.counts@.len(),
                forall|j: int| 0 <= j < i ==> self.counts@[j].0 != key,
            decreases self.counts@.len() - i,
        {
            if self.counts[i].0 == key {
                return Some(i);
            }
            i = i + 1;
        }
        None
    }

    /// The count of `key`; 0 for a key never counted.
    pub fn get(&self, key: &u64) -> (r: usize)
        requires
            self.wf(),
        ensures
            r == self.spec_get(*key),
    {
        match self.find(*key) {
            Some(i) => {
                proof {
                    lemma_count_at(self.counts@, i as int);
                }
                self.counts[i].1
            },
            None => {
                proof {
                    lemma_count_absent(self.counts@, *key);
                }
                0
            },
        }
    }

    /// Adds one to the count of `key`.
    pub fn increment(&mut self, key: u64)
        requires
            old(self).wf(),
            old(self).spec_total() < usize::MAX,
        ensures
            final(self).wf(),
            final(self).spec_get(key) == old(self).spec_get(key) + 1,
            forall|k: u64| k != key ==> final(self).spec_get(k) == old(self).spec_get(k),
            final(self).spec_total() == old(self).spec_total() + 1,
    {
        self.set_count(key, 1, true);
    }

    /// Sets the count of `key` to 0.
    pub fn reset(&mut self, key: u64)
        requires
            old(self).wf(),
        ensures
            final(self).wf(),
            final(self).spec_get(key) == 0,
            forall|k: u64| k != key ==> final(self).spec_get(k) == old(self).spec_get(k),
            final(self).spec_total() == old(self).spec_total() - old(self).spec_get(key),
    {
        self.set_count(key, 0, false);
    }

    /// Sets the count of `key` to `v`, or adds `v` to it when `add`.
    fn set_count(&mut self, key: u64, v: usize, add: bool)
        requires
            old(self).wf(),
            add ==> old(self).spec_total() + v <= usize::MAX,
            add || v == 0,
        ensures
            final(self).wf(),
            final(self).spec_get(key) == if add {
                old(self).spec_get(key) + v
            } else {
                v as int
            },
            forall|k: u64| k != key ==> final(self).spec_get(k) == old(self).spec_get(k),
            final(self).spec_total() + old(self).spec_get(key) == old(self).spec_total() + (
            if add {
                old(self).spec_get(key) + v
            } else {
                v as int
            }),
    {
        let ghost s0 = self.counts@;
        match self.find(key) {
            Some(i) => {
                proof {
                    lemma_count_at(s0, i as int);
                    lemma_count_le_total(s0, key);
                }
                let old_v = self.counts[i].1;
                let nv = if add {
                    old_v + v
                } else {
                    v
                };
                self.counts.set(i, (key, nv));
                proof {
                    lemma_update_entry(s0, i as int, nv);
                    assert(self.counts@ == s0.update(i as int, (s0[i as int].0, nv)));
                }
            },
            None => {
                proof {
                    lemma_count_absent(s0, key);
                }
                self.counts.push((key, v));
                proof {
                    let s1 = self.counts@;
                    assert(s1.drop_last() =~= s0);
                    assert forall|k: u64| k != key implies count_of(s1, k) == count_of(s0, k) by {}
                    assert(sum_counts(s1) == sum_counts(s0) + v);
                    assert forall|a: int, b: int| 0 <= a < b < s1.len() implies s1[a].0 != s1[b].0 by {
                        if b < s0.len() {
                            assert(s0[a].0 != s0[b].0);
                        } else {
                            assert(s0[a].0 != key);
                        }
                    }
                }
            },
        }
    }

    /// Forgets every count.
    pub fn clear(&mut self)
        ensures
            final(self).wf(),
            forall|k: u64| final(self).spec_get(k) == 0,
            final(self).spec_total() == 0,
    {
        self.counts = Vec::new();
    }

    /// The sum of all counts.
    pub fn total(&self) -> (r: usize)
        requires
            self.wf(),
        ensures
            r == self.spec_total(),
    {
        let mut t: usize = 0;
        let mut i: usize = 0;
        while i < self.counts.len()
            invariant
                self.wf(),
                0 <= i <= self.counts@.len(),
                t == sum_counts(self.counts@.subrange(0, i as int)),
            decreases self.counts@.len() - i,
        {
            proof {
                assert(self.counts@.subrange(0, i as int + 1).drop_last() =~= self.counts@.subrange(0, i as int));
                lemma_sum_prefix(self.counts@, i as int + 1);
            }
            t = t + self.counts[i].1;
            i = i + 1;
        }
        proof {
            assert(self.counts@.subrange(0, self.counts@.len() as int) =~= self.counts@);
        }
        t
    }

    /// The `n` most frequent keys with their counts, most frequent first.
    pub fn mostcommon(&self, n: usize) -> (r: Vec<(u64, usize)>)
        requires
            self.wf(),
        ensures
            r@.len() == if n < self.entries().len() {
                n as int
            } else {
                self.entries().len() as int
            },
            forall|i: int| 0 <= i < r@.len() ==> self.entries().contains(#[trigger] r@[i]),
            keys_unique(r@),
            forall|i: int, j: int| 0 <= i < j < r@.len() ==> r@[i].1 >= r@[j].1,
            forall|e: (u64, usize)|
                #[trigger] self.entries().contains(e) && !r@.contains(e) ==> forall|i: int|
                    0 <= i < r@.len() ==> e.1 <= #[trigger] r@[i].1,
    {
        let s = &self.counts;
        let len = s.len();
        let mut taken: Vec<bool> = Vec::new();
        let mut k: usize = 0;
        while k < len
            invariant
                0 <= k <= len,
                taken@.len() == k,
                forall|q: int| 0 <= q < k ==> !taken@[q],
            decreases len - k,
        {
            taken.push(false);
            k = k + 1;
        }
        let mut out: Vec<(u64, usize)> = Vec::new();
        let mut picked: Vec<usize> = Vec::new();
        proof {
            lemma_none_taken(taken@);
        }
        while out.len() < n && out.len() < len
            invariant
                self.wf(),
                len == s@.len(),
                s@ == self.counts@,
                taken@.len() == len,
                out@.len() == picked@.len(),
                out@.len() <= len,
                forall|i: int| 0 <= i < picked@.len() ==> #[trigger] picked@[i] < len,
                forall|i: int| 0 <= i < picked@.len() ==> out@[i] == s@[#[trigger] picked@[i] as int],
                forall|i: int| 0 <= i < picked@.len() ==> taken@[#[trigger] picked@[i] as int],
                forall|i: int, j: int| 0 <= i < j < picked@.len() ==> picked@[i] != picked@[j],
                forall|q: int| 0 <= q < len && taken@[q] ==> exists|i: int| 0 <= i < picked@.len() && #[trigger] picked@[i] == q,
                forall|i: int, j: int| 0 <= i < j < out@.len() ==> out@[i].1 >= out@[j].1,
                forall|q: int, i: int|
                    0 <= q < len && !taken@[q] && 0 <= i < out@.len() ==> #[trigger] s@[q].1 <= #[trigger] out@[i].1,
                out@.len() == count_taken(taken@),
                out@.len() <= n,
            ensures
                out@.len() == if n < len {
                    n as int
                } else {
                    len as int
                },
            decreases len - out@.len(),
        {
            let mut best: usize = len;
            let mut q: usize = 0;
            while q < len
                invariant
                    len == s@.len(),
                    taken@.len() == len,
                    0 <= q <= len,
                    best == len || (best < q && !taken@[best as int]),
                    best < len ==> forall|p: int| 0 <= p < q && !taken@[p] ==> #[trigger] s@[p].1 <= s@[best as int].1,
                    best == len ==> forall|p: int| 0 <= p < q ==> taken@[p],
                decreases len - q,
            {
                if !taken[q] && (best == len || s[q].1 > s[best].1) {
                    best = q;
                }
                q = q + 1;
            }
            if best == len {
                proof {
                    lemma_all_taken(taken@);
                }
                break;
            }
            let ghost old_taken = taken@;
            let ghost old_out = out@;
            let ghost old_picked = picked@;
            proof {
                lemma_count_taken_set(old_taken, best as int);
            }
            taken.set(best, true);
            out.push(s[best]);
            picked.push(best);
            proof {
                assert forall|q2: int| 0 <= q2 < len && taken@[q2] implies exists|i: int| 0 <= i < picked@.len() && #[trigger] picked@[i] == q2 by {
                    if q2 == best {
                        assert(picked@[old_picked.len() as int] == q2);
                    } else {
                        assert(old_taken[q2]);
                        let i = choose|i: int| 0 <= i < old_picked.len() && #[trigger] old_picked[i] == q2;
                        assert(picked@[i] == q2);
                    }
                }
                assert forall|i: int, j: int| 0 <= i < j < picked@.len() implies picked@[i] != picked@[j] by {
                    if j == old_picked.len() {
                        assert(old_taken[old_picked[i] as int]);
                    }
                }
                assert forall|i: int, j: int| 0 <= i < j < out@.len() implies out@[i].1 >= out@[j].1 by {
                    if j == old_out.len() {
                        assert(!old_taken[best as int]);
                        assert(s@[best as int].1 <= old_out[i].1);
                    }
                }
            }
        }
        proof {
            assert forall|i: int| 0 <= i < out@.len() implies s@.contains(#[trigger] out@[i]) by {
                assert(out@[i] == s@[picked@[i] as int]);
            }
            assert forall|i: int, j: int| 0 <= i < j < out@.len() implies out@[i].0 != out@[j].0 by {
                assert(out@[i] == s@[picked@[i] as int]);
                assert(out@[j] == s@[picked@[j] as int]);
                assert(picked@[i] != picked@[j]);
            }
            assert forall|e: (u64, usize)| #[trigger] s@.contains(e) && !out@.contains(e) implies forall|i: int|
                0 <= i < out@.len() ==> e.1 <= #[trigger] out@[i].1 by {
                let q = choose|q: int| 0 <= q < s@.len() && s@[q] == e;
                if taken@[q] {
                    let i = choose|i: int| 0 <= i < picked@.len() && #[trigger] picked@[i] == q;
                    assert(out@[i] == e);
                    assert(out@.contains(e));
                }
            }
            lemma_count_taken_le(taken@);
        }
        out
    }
}

/// How many flags are set.
pub open spec fn count_taken(s: Seq<bool>) -> nat
    decreases s.len(),
{
    if s.len() == 0 {
        0
    } else {
        count_taken(s.drop_last()) + if s.last() {
            1nat
        } else {
            0nat
        }
    }
}

proof fn lemma_count_taken_set(s: Seq<bool>, i: int)
    requires
        0 <= i < s.len(),
        !s[i],
    ensures
        count_taken(s.update(i, true)) == count_taken(s) + 1,
    decreases s.len(),
{
    let u = s.update(i, true);
    if i == s.len() - 1 {
        assert(u.drop_last() =~= s.drop_last());
    } else {
        assert(u.drop_last() =~= s.drop_last().update(i, true));
        lemma_count_taken_set(s.drop_last(), i);
    }
}

proof fn lemma_count_taken_le(s: Seq<bool>)
    ensures
        count_taken(s) <= s.len(),
    decreases s.len(),
{
    if s.len() > 0 {
        lemma_count_taken_le(s.drop_last());
    }
}

proof fn lemma_none_taken(s: Seq<bool>)
    requires
        forall|q: int| 0 <= q < s.len() ==> !s[q],
    ensures
        count_taken(s) == 0,
    decreases s.len(),
{
    if s.len() > 0 {
        lemma_none_taken(s.drop_last());
    }
}

proof fn lemma_all_taken(s: Seq<bool>)
    requires
        forall|q: int| 0 <= q < s.len() ==> s[q],
    ensures
        count_taken(s) == s.len(),
    decreases s.len(),
{
    if s.len() > 0 {
        lemma_all_taken(s.drop_last());
    }
}

proof fn lemma_count_at(s: Seq<(u64, usize)>, i: int)
    requires
        keys_unique(s),
        0 <= i < s.len(),
    ensures
        count_of(s, s[i].0) == s[i].1,
    decreases s.len(),
{
    if i < s.len() - 1 {
        assert(s.drop_last()[i] == s[i]);
        lemma_count_at(s.drop_last(), i);
    }
}

proof fn lemma_count_absent(s: Seq<(u64, usize)>, k: u64)
    requires
        forall|i: int| 0 <= i < s.len() ==> s[i].0 != k,
    ensures
        count_of(s, k) == 0,
    decreases s.len(),
{
    if s.len() > 0 {
        lemma_count_absent(s.drop_last(), k);
    }
}

proof fn lemma_count_le_total(s: Seq<(u64, usize)>, k: u64)
    ensures
        count_of(s, k) <= sum_counts(s),
    decreases s.len(),
{
    if s.len() > 0 {
        lemma_count_le_total(s.drop_last(), k);
    }
}

proof fn lemma_sum_prefix(s: Seq<(u64, usize)>, i: int)
    requires
        0 <= i <= s.len(),
    ensures
        sum_counts(s.subrange(0, i)) <= sum_counts(s),
    decreases s.len() - i,
{
    if i < s.len() {
        lemma_sum_prefix(s, i + 1);
        assert(s.subrange(0, i + 1).drop_last() =~= s.subrange(0, i));
    } else {
        assert(s.subrange(0, i) =~= s);
    }
}

/// Changing the count at entry `i` changes only that key's count, and the
/// total by the difference.
proof fn lemma_update_entry(s: Seq<(u64, usize)>, i: int, v: usize)
    requires
        keys_unique(s),
        0 <= i < s.len(),
    ensures
        keys_unique(s.update(i, (s[i].0, v))),
        count_of(s.update(i, (s[i].0, v)), s[i].0) == v,
        forall|k: u64| k != s[i].0 ==> count_of(s.update(i, (s[i].0, v)), k) == count_of(s, k),
        sum_counts(s.update(i, (s[i].0, v))) + s[i].1 == sum_counts(s) + v,
    decreases s.len(),
{
    let u = s.update(i, (s[i].0, v));
    assert forall|a: int, b: int| 0 <= a < b < u.len() implies u[a].0 != u[b].0 by {
        assert(s[a].0 != s[b].0);
    }
    lemma_count_at(u, i);
    if i == s.len() - 1 {
        assert(u.drop_last() =~= s.drop_last());
        assert forall|k: u64| k != s[i].0 implies count_of(u, k) == count_of(s, k) by {
            assert(u.last().0 == s[i].0);
            assert(s.last().0 == s[i].0);
        }
    } else {
        let d = s.drop_last();
        assert(u.drop_last() =~= d.update(i, (d[i].0, v)));
        lemma_update_entry(d, i, v);
        assert(u.last() == s.last());
        assert forall|k: u64| k != s[i].0 implies count_of(u, k) == count_of(s, k) by {
            assert(d[i].0 == s[i].0);
            if s.last().0 != k {
                assert(count_of(d.update(i, (d[i].0, v)), k) == count_of(d, k));
                assert(count_of(u, k) == count_of(u.drop_last(), k));
            }
        }
    }
}

} // verus!
