//! The compact, bucketed-by-fan-out form of an assignment set.
//!
//! A voter endorsing `k` targets is stored in bucket `k - 1` as a row
//! holding the voter index, `k - 1` explicit `(target, share)` pairs, and a
//! final target whose share is implicit (one whole unit minus the sum of
//! the explicit shares). No per-voter length prefix exists anywhere: the
//! arity is encoded by which bucket holds the row.

use vstd::prelude::*;

verus! {

/// The largest supported fan-out: a voter may endorse at most this many
/// targets.
pub const MAX_FANOUT: usize = 16;

/// One whole unit of the fixed-point share type: shares are parts of this.
pub const SHARE_UNIT: u16 = 65535;

/// One voter's entry: the voter index, the explicit `(target, share)`
/// pairs, and the final target that carries the implicit remaining share.
#[derive(Clone, PartialEq, Eq, Debug)]
pub struct CompactRow {
    /// Index of the voter in the snapshot's voter list.
    pub voter: u32,
    /// The explicit edges: target index and explicit fixed-point share.
    pub edges: Vec<(u16, u16)>,
    /// The final target; its share is one unit minus the explicit shares.
    pub last_target: u16,
}

/// An assignment set bucketed by fan-out. Bucket `k` holds the rows of
/// arity `k + 1`, that is, rows with `k` explicit edges.
#[derive(Clone, PartialEq, Eq, Debug)]
pub struct CompactSolution {
    /// Exactly `MAX_FANOUT` buckets; bucket `k` holds rows of `k` edges.
    pub buckets: Vec<Vec<CompactRow>>,
}

impl CompactSolution {
    /// Well-formed: all buckets present, and each row has exactly as many
    /// explicit edges as its bucket's arity demands.
    pub open spec fn wf(self) -> bool {
        &&& self.buckets@.len() == MAX_FANOUT
        &&& forall|k: int, j: int|
            0 <= k < self.buckets@.len() && 0 <= j < self.buckets@[k]@.len()
                ==> (#[trigger] self.buckets@[k]@[j]).edges@.len() == k
    }

    /// The number of voters stored in the buckets up to (excluding) `k`.
    pub open spec fn len_up_to(self, k: int) -> int
        decreases k,
    {
        if k <= 0 {
            0
        } else {
            self.len_up_to(k - 1) + self.buckets@[k - 1]@.len()
        }
    }

    /// The number of voters stored: the sum of all bucket lengths.
    pub open spec fn spec_len(self) -> int {
        self.len_up_to(self.buckets@.len() as int)
    }

    /// The number of edges in the buckets up to (excluding) `k`, counting
    /// arity `k + 1` for each row of bucket `k`.
    pub open spec fn edges_up_to(self, k: int) -> int
        decreases k,
    {
        if k <= 0 {
            0
        } else {
            self.edges_up_to(k - 1) + k * self.buckets@[k - 1]@.len()
        }
    }

    /// The number of edges stored: each row counts its full arity,
    /// implicit final target included.
    pub open spec fn spec_edge_count(self) -> int {
        self.edges_up_to(self.buckets@.len() as int)
    }

    /// An empty solution: all buckets present, none holding a row.
    pub fn empty() -> (r: CompactSolution)
        ensures
            r.wf(),
            r.spec_len() == 0,
            forall|k: int| 0 <= k < MAX_FANOUT ==> (#[trigger] r.buckets@[k]@).len() == 0,
    {
        let mut buckets: Vec<Vec<CompactRow>> = Vec::new();
        let mut k: usize = 0;
        while k < MAX_FANOUT
            invariant
                buckets@.len() == k,
                k <= MAX_FANOUT,
                forall|i: int| 0 <= i < k ==> (#[trigger] buckets@[i]@).len() == 0,
            decreases MAX_FANOUT - k,
        {
            buckets.push(Vec::new());
            k = k + 1;
        }
        let r = CompactSolution { buckets };
        proof {
            r.lemma_len_up_to_zero(MAX_FANOUT as int);
        }
        r
    }

    /// Empty buckets up to `k` contribute no length.
    proof fn lemma_len_up_to_zero(self, k: int)
        requires
            0 <= k <= self.buckets@.len(),
            forall|i: int| 0 <= i < k ==> (#[trigger] self.buckets@[i]@).len() == 0,
        ensures
            self.len_up_to(k) == 0,
        decreases k,
    {
        if k > 0 {
            self.lemma_len_up_to_zero(k - 1);
        }
    }

    /// The number of voters in the solution, saturating at the machine
    /// limit as the partial sums do.
    pub fn len(&self) -> (r: usize)
        requires
            self.wf(),
        ensures
            r == self.spec_len() || (r == usize::MAX && self.spec_len() > usize::MAX),
    {
        let mut total: usize = 0;
        let mut k: usize = 0;
        while k < self.buckets.len()
            invariant
                self.wf(),
                k <= self.buckets@.len(),
                total == self.len_up_to(k as int)
                    || (total == usize::MAX && self.len_up_to(k as int) > usize::MAX),
            decreases self.buckets@.len() - k,
        {
            let b_len = self.buckets[k].len();
            total = if total <= usize::MAX - b_len {
                total + b_len
            } else {
                usize::MAX
            };
            k = k + 1;
        }
        total
    }

    /// The number of edges in the solution, saturating at the machine
    /// limit as the partial sums do.
    pub fn edge_count(&self) -> (r: usize)
        requires
            self.wf(),
        ensures
            r == self.spec_edge_count()
                || (r == usize::MAX && self.spec_edge_count() > usize::MAX),
    {
        let mut total: usize = 0;
        let mut k: usize = 0;
        while k < self.buckets.len()
            invariant
                self.wf(),
                k <= self.buckets@.len(),
                total == self.edges_up_to(k as int)
                    || (total == usize::MAX && self.edges_up_to(k as int) > usize::MAX),
            decreases self.buckets@.len() - k,
        {
            let b_len = self.buckets[k].len();
            let arity = k + 1;
            proof {
                self.lemma_edges_up_to_nonnegative(k as int);
                assert(b_len <= usize::MAX / arity ==> b_len * arity <= usize::MAX)
                    by (nonlinear_arith)
                    requires arity >= 1, b_len >= 0,
                {}
                assert(b_len > usize::MAX / arity ==> b_len * arity > usize::MAX)
                    by (nonlinear_arith)
                    requires arity >= 1, b_len >= 0,
                {}
                assert(arity * b_len >= 0 && arity * b_len == b_len * arity)
                    by (nonlinear_arith)
                    requires arity >= 1, b_len >= 0,
                {}
                assert(self.edges_up_to(k + 1) == self.edges_up_to(k as int)
                    + (k + 1) * self.buckets@[k as int]@.len());
            }
            let weighted = if b_len <= usize::MAX / arity {
                b_len * arity
            } else {
                usize::MAX
            };
            total = if total <= usize::MAX - weighted {
                total + weighted
            } else {
                usize::MAX
            };
            k = k + 1;
        }
        total
    }

    /// Partial length sums are never negative.
    pub proof fn lemma_len_up_to_nonnegative(self, k: int)
        requires
            0 <= k <= self.buckets@.len(),
        ensures
            self.len_up_to(k) >= 0,
        decreases k,
    {
        if k > 0 {
            self.lemma_len_up_to_nonnegative(k - 1);
        }
    }

    /// Partial edge sums are never negative.
    pub proof fn lemma_edges_up_to_nonnegative(self, k: int)
        requires
            0 <= k <= self.buckets@.len(),
        ensures
            self.edges_up_to(k) >= 0,
        decreases k,
    {
        if k > 0 {
            self.lemma_edges_up_to_nonnegative(k - 1);
        }
    }

    /// Whether the solution holds an entry for voter index `v`.
    pub open spec fn contains_voter(self, v: u32) -> bool {
        exists|k: int, j: int|
            0 <= k < self.buckets@.len() && 0 <= j < self.buckets@[k]@.len()
                && (#[trigger] self.buckets@[k]@[j]).voter == v
    }

    /// Whether some row references target index `t`, through an explicit
    /// edge or as its final target.
    pub open spec fn references_target(self, t: u16) -> bool {
        exists|k: int, j: int|
            0 <= k < self.buckets@.len() && 0 <= j < self.buckets@[k]@.len()
                && row_references(#[trigger] self.buckets@[k]@[j], t)
    }

    /// All target indexes referenced anywhere in the solution, each once,
    /// in increasing order.
    pub fn unique_targets(&self) -> (r: Vec<u16>)
        requires
            self.wf(),
        ensures
            forall|i: int| 0 <= i && i + 1 < r@.len() ==> (#[trigger] r@[i]) < r@[i + 1],
            forall|t: u16| r@.contains(t) <==> self.references_target(t),
    {
        let mut out: Vec<u16> = Vec::new();
        let mut k: usize = 0;
        while k < self.buckets.len()
            invariant
                self.wf(),
                k <= self.buckets@.len(),
                forall|i: int| 0 <= i && i + 1 < out@.len() ==> (#[trigger] out@[i]) < out@[i + 1],
                forall|t: u16|
                    out@.contains(t) <==> exists|kk: int, jj: int|
                        0 <= kk < k && 0 <= jj < self.buckets@[kk]@.len()
                            && row_references(#[trigger] self.buckets@[kk]@[jj], t),
            decreases self.buckets@.len() - k,
        {
            let bucket = &self.buckets[k];
            let mut j: usize = 0;
            while j < bucket.len()
                invariant
                    self.wf(),
                    k < self.buckets@.len(),
                    bucket == self.buckets@[k as int],
                    j <= bucket@.len(),
                    forall|i: int| 0 <= i && i + 1 < out@.len() ==> (#[trigger] out@[i]) < out@[i + 1],
                    forall|t: u16|
                        out@.contains(t) <==> (exists|kk: int, jj: int|
                            0 <= kk < k && 0 <= jj < self.buckets@[kk]@.len()
                                && row_references(#[trigger] self.buckets@[kk]@[jj], t))
                            || (exists|jj: int|
                                0 <= jj < j && row_references(
                                    #[trigger] self.buckets@[k as int]@[jj], t)),
                decreases bucket@.len() - j,
            {
                let row = &bucket[j];
                let mut i: usize = 0;
                while i < row.edges.len()
                    invariant
                        row == self.buckets@[k as int]@[j as int],
                        i <= row.edges@.len(),
                        forall|ii: int| 0 <= ii && ii + 1 < out@.len() ==> (#[trigger] out@[ii]) < out@[ii + 1],
                        forall|t: u16|
                            out@.contains(t) <==> (exists|kk: int, jj: int|
                                0 <= kk < k && 0 <= jj < self.buckets@[kk]@.len()
                                    && row_references(#[trigger] self.buckets@[kk]@[jj], t))
                                || (exists|jj: int|
                                    0 <= jj < j && row_references(
                                        #[trigger] self.buckets@[k as int]@[jj], t))
                                || (exists|ii: int|
                                    0 <= ii < i && (#[trigger] row.edges@[ii]).0 == t),
                    decreases row.edges@.len() - i,
                {
                    let (t, _) = row.edges[i];
                    insert_sorted(&mut out, t);
                    i = i + 1;
                }
                insert_sorted(&mut out, row.last_target);
                proof {
                    assert forall|t: u16| #[trigger] out@.contains(t) implies
                        (exists|kk: int, jj: int|
                            0 <= kk < k && 0 <= jj < self.buckets@[kk]@.len()
                                && row_references(#[trigger] self.buckets@[kk]@[jj], t))
                        || (exists|jj: int|
                            0 <= jj < j + 1 && row_references(
                                self.buckets@[k as int]@[jj], t)) by {
                        if !(exists|kk: int, jj: int|
                            0 <= kk < k && 0 <= jj < self.buckets@[kk]@.len()
                                && row_references(#[trigger] self.buckets@[kk]@[jj], t))
                            && !(exists|jj: int|
                                0 <= jj < j && row_references(
                                    #[trigger] self.buckets@[k as int]@[jj], t)) {
                            assert(row_references(self.buckets@[k as int]@[j as int], t));
                        }
                    }
                    assert forall|t: u16|
                        (exists|jj: int|
                            0 <= jj < j + 1 && row_references(
                                #[trigger] self.buckets@[k as int]@[jj], t))
                        implies out@.contains(t) by {
                        let jj = choose|jj: int|
                            0 <= jj < j + 1 && row_references(
                                self.buckets@[k as int]@[jj], t);
                        if jj == j {
                            assert(row_references(*row, t));
                        }
                    }
                }
                j = j + 1;
            }
            k = k + 1;
        }
        out
    }

    /// Removes the first entry of voter `v`, scanning the buckets in
    /// increasing arity order; reports whether one was found. A voter may
    /// appear at most once, so at most one entry ever leaves.
    pub fn remove_voter(&mut self, to_remove: u32) -> (found: bool)
        requires
            old(self).wf(),
        ensures
            final(self).wf(),
            found == old(self).contains_voter(to_remove),
            !found ==> *final(self) == *old(self),
            found ==> exists|k: int, j: int|
                {
                    &&& 0 <= k < old(self).buckets@.len()
                    &&& 0 <= j < old(self).buckets@[k]@.len()
                    &&& (#[trigger] old(self).buckets@[k]@[j]).voter == to_remove
                    &&& forall|kk: int, jj: int|
                        0 <= kk < old(self).buckets@.len() && 0 <= jj
                            < old(self).buckets@[kk]@.len() && (kk < k || (kk == k && jj < j))
                            ==> (#[trigger] old(self).buckets@[kk]@[jj]).voter != to_remove
                    &&& final(self).buckets@.len() == old(self).buckets@.len()
                    &&& final(self).buckets@[k]@ == old(self).buckets@[k]@.remove(j)
                    &&& forall|kk: int|
                        0 <= kk < old(self).buckets@.len() && kk != k
                            ==> (#[trigger] final(self).buckets@[kk]) == old(self).buckets@[kk]
                },
    {
        let ghost c0 = *self;
        let mut k: usize = 0;
        while k < self.buckets.len()
            invariant
                *self == c0,
                c0 == *old(self),
                c0.wf(),
                k <= c0.buckets@.len(),
                forall|kk: int, jj: int|
                    0 <= kk < k && 0 <= jj < c0.buckets@[kk]@.len()
                        ==> (#[trigger] c0.buckets@[kk]@[jj]).voter != to_remove,
            decreases c0.buckets@.len() - k,
        {
            let mut j: usize = 0;
            let bucket_len = self.buckets[k].len();
            while j < bucket_len
                invariant
                    *self == c0,
                    c0 == *old(self),
                    c0.wf(),
                    k < c0.buckets@.len(),
                    bucket_len == c0.buckets@[k as int]@.len(),
                    j <= bucket_len,
                    forall|kk: int, jj: int|
                        0 <= kk < k && 0 <= jj < c0.buckets@[kk]@.len()
                            ==> (#[trigger] c0.buckets@[kk]@[jj]).voter != to_remove,
                    forall|jj: int|
                        0 <= jj < j ==> (#[trigger] c0.buckets@[k as int]@[jj]).voter
                            != to_remove,
                decreases bucket_len - j,
            {
                if self.buckets[k][j].voter == to_remove {
                    proof {
                        assert((c0.buckets@[k as int]@[j as int]).voter == to_remove);
                        assert(c0.contains_voter(to_remove));
                    }
                    let bucket = &mut self.buckets[k];
                    bucket.remove(j);
                    proof {
                        assert(self.buckets@ =~= c0.buckets@.update(k as int,
                            self.buckets@[k as int]));
                        assert forall|kk: int, jj: int|
                            0 <= kk < self.buckets@.len() && 0 <= jj
                                < self.buckets@[kk]@.len()
                            implies (#[trigger] self.buckets@[kk]@[jj]).edges@.len() == kk by {
                            if kk == k {
                                assert(self.buckets@[kk]@[jj]
                                    == c0.buckets@[k as int]@.remove(j as int)[jj]);
                            } else {
                                assert(self.buckets@[kk]@[jj] == c0.buckets@[kk]@[jj]);
                            }
                        }
                        assert forall|kk: int, jj: int|
                            0 <= kk < c0.buckets@.len() && 0 <= jj < c0.buckets@[kk]@.len()
                                && (kk < k || (kk == k && jj < j))
                            implies (#[trigger] c0.buckets@[kk]@[jj]).voter != to_remove by {}
                        assert(self.buckets@.len() == c0.buckets@.len());
                        assert(self.buckets@[k as int]@ == c0.buckets@[k as int]@.remove(j as int));
                        assert forall|kk: int|
                            0 <= kk < c0.buckets@.len() && kk != k
                            implies (#[trigger] self.buckets@[kk]) == c0.buckets@[kk] by {}
                    }
                    return true;
                }
                j = j + 1;
            }
            k = k + 1;
        }
        proof {
            if c0.contains_voter(to_remove) {
                let (k, j) = choose|k: int, j: int|
                    0 <= k < c0.buckets@.len() && 0 <= j < c0.buckets@[k]@.len()
                        && (#[trigger] c0.buckets@[k]@[j]).voter == to_remove;
                assert(c0.buckets@[k]@[j].voter != to_remove);
            }
        }
        false
    }
}

/// Whether a row references target index `t`.
pub open spec fn row_references(row: CompactRow, t: u16) -> bool {
    row.last_target == t || exists|i: int| 0 <= i < row.edges@.len()
        && (#[trigger] row.edges@[i]).0 == t
}

/// One vector holds exactly the values of another together with `t`.
pub open spec fn holds_values_plus(a: Seq<u16>, b: Seq<u16>, t: u16) -> bool {
    forall|x: u16| a.contains(x) <==> (b.contains(x) || x == t)
}

/// Inserts `t` into a strictly sorted vector, keeping it strictly sorted;
/// a value already present is left alone.
fn insert_sorted(v: &mut Vec<u16>, t: u16)
    requires
        forall|i: int| 0 <= i && i + 1 < old(v)@.len() ==> (#[trigger] old(v)@[i]) < old(v)@[i + 1],
    ensures
        forall|i: int| 0 <= i && i + 1 < final(v)@.len() ==> (#[trigger] final(v)@[i]) < final(v)@[i + 1],
        holds_values_plus(final(v)@, old(v)@, t),
{
    let ghost v0 = v@;
    let mut i: usize = 0;
    while i < v.len() && v[i] < t
        invariant
            v@ == v0,
            i <= v0.len(),
            forall|ii: int| 0 <= ii < i ==> v0[ii] < t,
        decreases v0.len() - i,
    {
        i = i + 1;
    }
    if i < v.len() {
        let cur = v[i];
        if cur == t {
            proof {
                assert forall|x: u16| v@.contains(x) <==> (v0.contains(x) || x == t) by {
                    assert(v0[i as int] == t);
                }
                assert(holds_values_plus(v@, v0, t));
            }
            return;
        }
    }
    v.insert(i, t);
    proof {
        assert(v@ =~= v0.take(i as int) + seq![t] + v0.skip(i as int));
        assert forall|a: int| 0 <= a && a + 1 < v@.len() implies (#[trigger] v@[a]) < v@[a + 1] by {
            if a + 1 < i {
                assert(v@[a] == v0[a] && v@[a + 1] == v0[a + 1]);
            } else if a + 1 == i {
                assert(v@[a] == v0[a] && v@[a + 1] == t);
            } else if a == i {
                assert(v@[a] == t && v@[a + 1] == v0[a]);
                assert(!(v0[a] < t));
            } else {
                assert(v@[a] == v0[a - 1] && v@[a + 1] == v0[a]);
            }
        }
        assert forall|x: u16| v@.contains(x) implies (v0.contains(x) || x == t) by {
            let idx = choose|idx: int| 0 <= idx < v@.len() && v@[idx] == x;
            if idx < i {
                assert(v0[idx] == x);
            } else if idx > i {
                assert(v0[idx - 1] == x);
            } else {
                assert(v@[idx] == t);
            }
        }
        assert forall|x: u16| (v0.contains(x) || x == t) implies v@.contains(x) by {
            if x == t {
                assert(v@[i as int] == x);
            } else {
                let idx = choose|idx: int| 0 <= idx < v0.len() && v0[idx] == x;
                if idx < i {
                    assert(v@[idx] == x);
                } else {
                    assert(v@[idx + 1] == x);
                }
            }
        }
        assert(holds_values_plus(v@, v0, t));
    }
}

} // verus!
