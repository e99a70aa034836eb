//! The feasibility checker: the single acceptance gate for solutions.
//!
//! A claimed solution is held against the frozen snapshot: the winner
//! count, every index, every share, and every nomination are checked, the
//! per-winner supports are rebuilt from first principles, and the score
//! recomputed from them must equal the claimed score exactly.

use vstd::prelude::*;
use crate::compact::{CompactRow, CompactSolution, SHARE_UNIT};
use crate::types::{ElectionCompute, ElectionScore, FeasibilityError, RawSolution, ReadySolution, Support};

verus! {

/// The frozen per-round data: each voter with its stake and nomination
/// list, the candidate targets, and the number of winners wanted.
#[derive(Clone, PartialEq, Eq, Debug)]
pub struct Snapshot {
    /// Each voter: account, stake weight, nominated target accounts.
    pub voters: Vec<(u64, u64, Vec<u64>)>,
    /// The candidate target accounts.
    pub targets: Vec<u64>,
    /// How many winners the round must produce.
    pub desired_targets: u32,
}

/// Every index of the row resolves against the snapshot sizes.
pub open spec fn row_voter_valid(row: CompactRow, n_voters: int) -> bool {
    row.voter < n_voters
}

/// Every target index of the row resolves against the target count.
pub open spec fn row_targets_valid(row: CompactRow, n_targets: int) -> bool {
    row.last_target < n_targets && forall|i: int|
        0 <= i < row.edges@.len() ==> (#[trigger] row.edges@[i]).0 < n_targets
}

/// All voter indexes of the solution resolve.
pub open spec fn voters_valid(c: CompactSolution, n_voters: int) -> bool {
    forall|k: int, j: int|
        0 <= k < c.buckets@.len() && 0 <= j < c.buckets@[k]@.len() ==> row_voter_valid(
            #[trigger] c.buckets@[k]@[j],
            n_voters,
        )
}

/// All target indexes of the solution resolve.
pub open spec fn targets_valid(c: CompactSolution, n_targets: int) -> bool {
    forall|k: int, j: int|
        0 <= k < c.buckets@.len() && 0 <= j < c.buckets@[k]@.len() ==> row_targets_valid(
            #[trigger] c.buckets@[k]@[j],
            n_targets,
        )
}

/// The sum of the explicit shares of a run of edges.
pub open spec fn sum_shares(edges: Seq<(u16, u16)>) -> int
    decreases edges.len(),
{
    if edges.len() == 0 {
        0
    } else {
        sum_shares(edges.drop_last()) + edges.last().1
    }
}

/// A row's explicit shares leave room for the implicit final share.
pub open spec fn row_shares_valid(row: CompactRow) -> bool {
    sum_shares(row.edges@) < SHARE_UNIT
}

/// Every row's explicit shares leave room for its final share.
pub open spec fn shares_valid(c: CompactSolution) -> bool {
    forall|k: int, j: int|
        0 <= k < c.buckets@.len() && 0 <= j < c.buckets@[k]@.len() ==> row_shares_valid(
            #[trigger] c.buckets@[k]@[j],
        )
}

/// The stake-weighted value of one explicit share: the product scaled
/// down by the share unit, rounded down.
pub open spec fn edge_weight(parts: u16, stake: u64) -> int {
    (parts * stake) / (SHARE_UNIT as int)
}

/// The sum of the stake-weighted explicit edges of a row.
pub open spec fn sum_edge_weights(edges: Seq<(u16, u16)>, stake: u64) -> int
    decreases edges.len(),
{
    if edges.len() == 0 {
        0
    } else {
        sum_edge_weights(edges.drop_last(), stake) + edge_weight(edges.last().1, stake)
    }
}

/// Nonnegative summands split across a floor division.
proof fn lemma_div_sum_le(a: int, b: int, d: int)
    requires
        a >= 0,
        b >= 0,
        d > 0,
    ensures
        a / d + b / d <= (a + b) / d,
{
    vstd::arithmetic::div_mod::lemma_fundamental_div_mod(a, d);
    vstd::arithmetic::div_mod::lemma_fundamental_div_mod(b, d);
    vstd::arithmetic::div_mod::lemma_fundamental_div_mod(a + b, d);
    let q = a / d + b / d;
    let r = a % d + b % d;
    assert(a + b == q * d + r && (q + 1) * d + (r - d) == q * d + r) by (nonlinear_arith)
        requires
            a == d * (a / d) + a % d,
            b == d * (b / d) + b % d,
            q == a / d + b / d,
            r == a % d + b % d,
    {}
    if r < d {
        vstd::arithmetic::div_mod::lemma_fundamental_div_mod_converse(a + b, d, q, r);
    } else {
        vstd::arithmetic::div_mod::lemma_fundamental_div_mod_converse(a + b, d, q + 1, r - d);
    }
}

/// Division by the share unit is monotone in the dividend.
proof fn lemma_div_le(a: int, b: int, d: int)
    requires
        0 <= a <= b,
        d > 0,
    ensures
        a / d <= b / d,
{
    vstd::arithmetic::div_mod::lemma_div_is_ordered(a, b, d);
}

/// The stake-weighted explicit edges never exceed the share-scaled stake:
/// their sum is at most `sum_shares * stake / SHARE_UNIT`.
pub proof fn lemma_sum_edge_weights_le(edges: Seq<(u16, u16)>, stake: u64)
    ensures
        0 <= sum_edge_weights(edges, stake),
        sum_edge_weights(edges, stake) <= (sum_shares(edges) * stake) / (SHARE_UNIT as int),
        0 <= sum_shares(edges),
    decreases edges.len(),
{
    if edges.len() == 0 {
    } else {
        let rest = edges.drop_last();
        let p = edges.last().1;
        lemma_sum_edge_weights_le(rest, stake);
        assert(p * stake >= 0) by (nonlinear_arith)
            requires p >= 0, stake >= 0,
        {}
        assert(sum_shares(rest) * stake >= 0) by (nonlinear_arith)
            requires sum_shares(rest) >= 0, stake >= 0,
        {}
        vstd::arithmetic::div_mod::lemma_div_pos_is_pos(p * stake, SHARE_UNIT as int);
        lemma_div_sum_le(sum_shares(rest) * stake, p * stake, SHARE_UNIT as int);
        assert(sum_shares(rest) * stake + p * stake == sum_shares(edges) * stake)
            by (nonlinear_arith)
            requires sum_shares(edges) == sum_shares(rest) + p,
        {}
    }
}

/// Under a valid share sum, the stake-weighted explicit edges stay within
/// the voter's stake.
pub proof fn lemma_row_weights_bounded(edges: Seq<(u16, u16)>, stake: u64)
    requires
        sum_shares(edges) <= SHARE_UNIT,
    ensures
        0 <= sum_edge_weights(edges, stake) <= stake,
{
    lemma_sum_edge_weights_le(edges, stake);
    assert(sum_shares(edges) * stake <= SHARE_UNIT * stake) by (nonlinear_arith)
        requires sum_shares(edges) <= SHARE_UNIT, stake >= 0,
    {}
    lemma_div_le(sum_shares(edges) * stake, SHARE_UNIT * stake, SHARE_UNIT as int);
    assert((SHARE_UNIT * stake) / (SHARE_UNIT as int) == stake) by {
        vstd::arithmetic::div_mod::lemma_div_multiples_vanish(stake as int, SHARE_UNIT as int);
    }
}

/// One stake contribution: the winner it backs, the voter it comes from,
/// and its weight.
pub type Contrib = (u64, u64, int);

/// The contributions of one row: each explicit edge weighted by its
/// share, and the final target backed by the rest of the stake.
pub open spec fn row_contribs(row: CompactRow, s: Snapshot) -> Seq<Contrib> {
    let acct = s.voters@[row.voter as int].0;
    let stake = s.voters@[row.voter as int].1;
    Seq::new(
        row.edges@.len(),
        |i: int| (s.targets@[row.edges@[i].0 as int], acct, edge_weight(row.edges@[i].1, stake)),
    ) + seq![
        (
            s.targets@[row.last_target as int],
            acct,
            stake - sum_edge_weights(row.edges@, stake),
        ),
    ]
}

/// The contributions of a run of rows, in order.
pub open spec fn rows_contribs(rows: Seq<CompactRow>, s: Snapshot) -> Seq<Contrib>
    decreases rows.len(),
{
    if rows.len() == 0 {
        Seq::empty()
    } else {
        rows_contribs(rows.drop_last(), s) + row_contribs(rows.last(), s)
    }
}

/// The contributions of a run of buckets, in increasing arity order.
pub open spec fn buckets_contribs(bs: Seq<Vec<CompactRow>>, s: Snapshot) -> Seq<Contrib>
    decreases bs.len(),
{
    if bs.len() == 0 {
        Seq::empty()
    } else {
        buckets_contribs(bs.drop_last(), s) + rows_contribs(bs.last()@, s)
    }
}

/// All stake contributions of the solution, in bucket-and-row order.
pub open spec fn solution_contribs(c: CompactSolution, s: Snapshot) -> Seq<Contrib> {
    buckets_contribs(c.buckets@, s)
}

/// The contributions backing one account: each backer with its weight.
pub open spec fn contribs_for(cs: Seq<Contrib>, acct: u64) -> Seq<(u64, int)>
    decreases cs.len(),
{
    if cs.len() == 0 {
        Seq::empty()
    } else {
        contribs_for(cs.drop_last(), acct) + (if cs.last().0 == acct {
            seq![(cs.last().1, cs.last().2)]
        } else {
            Seq::empty()
        })
    }
}

/// Saturating addition at the widest balance.
pub open spec fn sat_add_u128(a: int, b: int) -> int {
    vstd::math::min(a + b, u128::MAX as int)
}

/// Saturating multiplication at the widest balance.
pub open spec fn sat_mul_u128(a: int, b: int) -> int {
    vstd::math::min(a * b, u128::MAX as int)
}

/// The saturating total of a run of backings.
pub open spec fn total_of(entries: Seq<(u64, int)>) -> int
    decreases entries.len(),
{
    if entries.len() == 0 {
        0
    } else {
        sat_add_u128(total_of(entries.drop_last()), entries.last().1)
    }
}

/// The first position of `acct` in the winner list, or `-1`.
pub open spec fn winner_pos(winners: Seq<u64>, acct: u64) -> int
    decreases winners.len(),
{
    if winners.len() == 0 {
        -1
    } else if winners[0] == acct {
        0
    } else {
        let r = winner_pos(winners.drop_first(), acct);
        if r < 0 {
            -1
        } else {
            r + 1
        }
    }
}

/// What the winner position finds and where it points.
pub proof fn lemma_winner_pos_props(winners: Seq<u64>, acct: u64)
    ensures
        -1 <= winner_pos(winners, acct) < winners.len(),
        winner_pos(winners, acct) >= 0 ==> winners[winner_pos(winners, acct)] == acct,
        winner_pos(winners, acct) == -1 ==> forall|j: int|
            0 <= j < winners.len() ==> winners[j] != acct,
        winner_pos(winners, acct) >= 0 ==> forall|j: int|
            0 <= j < winner_pos(winners, acct) ==> winners[j] != acct,
    decreases winners.len(),
{
    if winners.len() > 0 && winners[0] != acct {
        lemma_winner_pos_props(winners.drop_first(), acct);
        let d = winners.drop_first();
        if winner_pos(winners, acct) == -1 {
            assert forall|j: int| 0 <= j < winners.len() implies winners[j] != acct by {
                if j > 0 {
                    assert(d[j - 1] == winners[j]);
                }
            }
        } else {
            assert forall|j: int| 0 <= j < winner_pos(winners, acct)
                implies winners[j] != acct by {
                if j > 0 {
                    assert(d[j - 1] == winners[j]);
                }
            }
        }
    }
}

/// The backing total owed to the winner slot `i`: the full filtered total
/// for the first slot of its account, zero for a later duplicate.
pub open spec fn slot_total(winners: Seq<u64>, cs: Seq<Contrib>, i: int) -> int {
    if winner_pos(winners, winners[i]) == i {
        total_of(contribs_for(cs, winners[i]))
    } else {
        0
    }
}

/// The saturating sum of the backing totals of the first `n` slots.
pub open spec fn score_sum_upto(winners: Seq<u64>, cs: Seq<Contrib>, n: int) -> int
    decreases n,
{
    if n <= 0 {
        0
    } else {
        sat_add_u128(score_sum_upto(winners, cs, n - 1), slot_total(winners, cs, n - 1))
    }
}

/// The least backing total among the first `n` slots; the widest balance
/// where no slot exists.
pub open spec fn score_min_upto(winners: Seq<u64>, cs: Seq<Contrib>, n: int) -> int
    decreases n,
{
    if n <= 0 {
        u128::MAX as int
    } else {
        vstd::math::min(score_min_upto(winners, cs, n - 1), slot_total(winners, cs, n - 1))
    }
}

/// The saturating sum of the squared backing totals of the first `n`
/// slots.
pub open spec fn score_sumsq_upto(winners: Seq<u64>, cs: Seq<Contrib>, n: int) -> int
    decreases n,
{
    if n <= 0 {
        0
    } else {
        sat_add_u128(
            score_sumsq_upto(winners, cs, n - 1),
            sat_mul_u128(slot_total(winners, cs, n - 1), slot_total(winners, cs, n - 1)),
        )
    }
}

/// The winner target indexes of a solution: every referenced index below
/// `bound`, in increasing order.
pub open spec fn referenced_below(c: CompactSolution, bound: int) -> Seq<u16>
    decreases bound,
{
    if bound <= 0 {
        Seq::empty()
    } else {
        referenced_below(c, bound - 1) + (if c.references_target((bound - 1) as u16) {
            seq![(bound - 1) as u16]
        } else {
            Seq::empty()
        })
    }
}

/// All winner target indexes of a solution, in increasing order.
pub open spec fn spec_unique_targets(c: CompactSolution) -> Seq<u16> {
    referenced_below(c, 65536)
}

/// The winner accounts of a solution, in target-index order.
pub open spec fn spec_winners(c: CompactSolution, s: Snapshot) -> Seq<u64> {
    Seq::new(spec_unique_targets(c).len(), |i: int| s.targets@[spec_unique_targets(c)[i] as int])
}

/// The score recomputed from first principles: total backing, least
/// backing, and sum of squared backings over all winner slots.
pub open spec fn spec_score(c: CompactSolution, s: Snapshot) -> ElectionScore {
    let winners = spec_winners(c, s);
    let cs = solution_contribs(c, s);
    ElectionScore {
        sum_stake: score_sum_upto(winners, cs, winners.len() as int) as u128,
        min_support: score_min_upto(winners, cs, winners.len() as int) as u128,
        sum_squared: score_sumsq_upto(winners, cs, winners.len() as int) as u128,
    }
}

/// Every target of every row lies inside its voter's nomination list.
pub open spec fn row_nominated(row: CompactRow, s: Snapshot) -> bool {
    let noms = s.voters@[row.voter as int].2@;
    &&& noms.contains(s.targets@[row.last_target as int])
    &&& forall|i: int|
        0 <= i < row.edges@.len() ==> noms.contains(
            s.targets@[(#[trigger] row.edges@[i]).0 as int],
        )
}

/// Every row's votes lie inside its voter's nominations.
pub open spec fn votes_nominated(c: CompactSolution, s: Snapshot) -> bool {
    forall|k: int, j: int|
        0 <= k < c.buckets@.len() && 0 <= j < c.buckets@[k]@.len() ==> row_nominated(
            #[trigger] c.buckets@[k]@[j],
            s,
        )
}

/// The externally supplied per-voter validity judgment of the snapshot
/// provider: the host may refuse a voter's distribution on rules of its
/// own, beyond the nomination check.
pub trait DistributionValidator {
    /// What the judgment holds of a voter's distribution.
    spec fn spec_valid(&self, who: u64, distribution: Seq<(u64, u16)>) -> bool;

    /// Judges one voter's account-based distribution.
    fn is_valid(&self, who: u64, distribution: &Vec<(u64, u16)>) -> (r: bool)
        ensures
            r == self.spec_valid(who, distribution@),
    ;
}

/// The provider judgment that accepts every distribution.
pub struct AcceptAllDistributions;

impl DistributionValidator for AcceptAllDistributions {
    open spec fn spec_valid(&self, who: u64, distribution: Seq<(u64, u16)>) -> bool {
        true
    }

    fn is_valid(&self, who: u64, distribution: &Vec<(u64, u16)>) -> (r: bool)
        ensures
            r == self.spec_valid(who, distribution@),
    {
        true
    }
}

/// Every row's account-based distribution passes the provider judgment.
pub open spec fn votes_validated<V: DistributionValidator>(
    c: CompactSolution,
    s: Snapshot,
    v: V,
) -> bool {
    forall|k: int, j: int|
        0 <= k < c.buckets@.len() && 0 <= j < c.buckets@[k]@.len() ==> v.spec_valid(
            crate::unsigned::row_assignment(#[trigger] c.buckets@[k]@[j], s).0,
            crate::unsigned::row_assignment(c.buckets@[k]@[j], s).1,
        )
}

/// A solution is feasible against a snapshot and the provider judgment:
/// right winner count, every index resolving, every share sum in range,
/// every vote nominated and accepted by the provider, and the recomputed
/// score equal to the claimed one.
pub open spec fn feasible<V: DistributionValidator>(
    s: Snapshot,
    v: V,
    compact: CompactSolution,
    claimed: ElectionScore,
) -> bool {
    &&& spec_unique_targets(compact).len() == s.desired_targets
    &&& targets_valid(compact, s.targets@.len() as int)
    &&& voters_valid(compact, s.voters@.len() as int)
    &&& shares_valid(compact)
    &&& votes_nominated(compact, s)
    &&& votes_validated(compact, s, v)
    &&& spec_score(compact, s) == claimed
}

/// What `referenced_below` collects: increasing indexes under the bound,
/// exactly the referenced ones.
proof fn lemma_referenced_below_props(c: CompactSolution, bound: int)
    requires
        0 <= bound <= 65536,
    ensures
        forall|i: int|
            0 <= i && i + 1 < referenced_below(c, bound).len()
                ==> (#[trigger] referenced_below(c, bound)[i]) < referenced_below(c, bound)[i + 1],
        forall|i: int|
            0 <= i < referenced_below(c, bound).len()
                ==> (#[trigger] referenced_below(c, bound)[i]) < bound,
        forall|t: u16|
            referenced_below(c, bound).contains(t) <==> (c.references_target(t) && t < bound),
    decreases bound,
{
    if bound > 0 {
        lemma_referenced_below_props(c, bound - 1);
        let prev = referenced_below(c, bound - 1);
        let cur = referenced_below(c, bound);
        if c.references_target((bound - 1) as u16) {
            assert(cur =~= prev.push((bound - 1) as u16));
            assert forall|t: u16| cur.contains(t)
                implies (c.references_target(t) && t < bound) by {
                let i = choose|i: int| 0 <= i < cur.len() && cur[i] == t;
                if i < prev.len() {
                    assert(prev[i] == t);
                    assert(prev.contains(t));
                }
            }
            assert forall|t: u16| c.references_target(t) && t < bound
                implies cur.contains(t) by {
                if t < bound - 1 {
                    assert(prev.contains(t));
                    let i = choose|i: int| 0 <= i < prev.len() && prev[i] == t;
                    assert(cur[i] == t);
                } else {
                    assert(cur[prev.len() as int] == t);
                }
            }
        } else {
            assert(cur =~= prev);
            assert forall|t: u16| c.references_target(t) && t < bound
                implies cur.contains(t) by {
                assert(t != bound - 1);
            }
        }
    }
}

/// In a strictly increasing run, positions order their values.
proof fn lemma_sorted_monotone(s: Seq<u16>, i: int, j: int)
    requires
        forall|a: int| 0 <= a && a + 1 < s.len() ==> (#[trigger] s[a]) < s[a + 1],
        0 <= i <= j < s.len(),
    ensures
        s[i] <= s[j],
    decreases j - i,
{
    if i < j {
        lemma_sorted_monotone(s, i + 1, j);
    }
}

/// Two strictly increasing runs with the same members are the same run.
#[verifier::rlimit(100)]
proof fn lemma_sorted_unique_eq(a: Seq<u16>, b: Seq<u16>)
    requires
        forall|i: int| 0 <= i && i + 1 < a.len() ==> (#[trigger] a[i]) < a[i + 1],
        forall|i: int| 0 <= i && i + 1 < b.len() ==> (#[trigger] b[i]) < b[i + 1],
        forall|t: u16| a.contains(t) <==> b.contains(t),
    ensures
        a == b,
    decreases a.len(),
{
    if a.len() == 0 {
        if b.len() > 0 {
            assert(b.contains(b[0]));
        }
        assert(a =~= b);
    } else {
        assert(a.contains(a[0]));
        assert(b.len() > 0);
        let ia = choose|i: int| 0 <= i < b.len() && b[i] == a[0];
        lemma_sorted_monotone(b, 0, ia);
        assert(b.contains(b[0]));
        let ib = choose|i: int| 0 <= i < a.len() && a[i] == b[0];
        lemma_sorted_monotone(a, 0, ib);
        assert(a[0] == b[0]);
        let ta = a.drop_first();
        let tb = b.drop_first();
        assert forall|i: int| 0 <= i && i + 1 < ta.len()
            implies (#[trigger] ta[i]) < ta[i + 1] by {
            assert(ta[i] == a[i + 1] && ta[i + 1] == a[i + 2]);
        }
        assert forall|i: int| 0 <= i && i + 1 < tb.len()
            implies (#[trigger] tb[i]) < tb[i + 1] by {
            assert(tb[i] == b[i + 1] && tb[i + 1] == b[i + 2]);
        }
        assert forall|t: u16| ta.contains(t) <==> tb.contains(t) by {
            if ta.contains(t) {
                let i = choose|i: int| 0 <= i < ta.len() && ta[i] == t;
                assert(a[i + 1] == t);
                assert(a.contains(t));
                assert(a[0] < t) by {
                    assert(a[0] < a[1]);
                    if i + 1 > 1 {
                        lemma_sorted_monotone(a, 1, i + 1);
                    }
                }
                let j = choose|j: int| 0 <= j < b.len() && b[j] == t;
                assert(j > 0);
                assert(tb[j - 1] == t);
            }
            if tb.contains(t) {
                let i = choose|i: int| 0 <= i < tb.len() && tb[i] == t;
                assert(b[i + 1] == t);
                assert(b.contains(t));
                assert(b[0] < t) by {
                    assert(b[0] < b[1]);
                    if i + 1 > 1 {
                        lemma_sorted_monotone(b, 1, i + 1);
                    }
                }
                let j = choose|j: int| 0 <= j < a.len() && a[j] == t;
                assert(j > 0);
                assert(ta[j - 1] == t);
            }
        }
        lemma_sorted_unique_eq(ta, tb);
        assert(a.len() == b.len());
        assert forall|i: int| 0 <= i < a.len() implies a[i] == b[i] by {
            if i > 0 {
                assert(ta[i - 1] == a[i] && tb[i - 1] == b[i]);
            }
        }
        assert(a =~= b);
    }
}

/// The winner indexes that the sweep returns are exactly the specified
/// unique target list.
pub proof fn lemma_unique_targets_agree(c: CompactSolution, found: Seq<u16>)
    requires
        forall|i: int| 0 <= i && i + 1 < found.len() ==> (#[trigger] found[i]) < found[i + 1],
        forall|t: u16| found.contains(t) <==> c.references_target(t),
    ensures
        found == spec_unique_targets(c),
{
    lemma_referenced_below_props(c, 65536);
    lemma_sorted_unique_eq(found, spec_unique_targets(c));
}

/// Whether an account stands in a list.
fn contains_account(v: &Vec<u64>, x: u64) -> (r: bool)
    ensures
        r == v@.contains(x),
{
    let mut i: usize = 0;
    while i < v.len()
        invariant
            i <= v@.len(),
            forall|j: int| 0 <= j < i ==> v@[j] != x,
        decreases v@.len() - i,
    {
        if v[i] == x {
            return true;
        }
        i = i + 1;
    }
    proof {
        if v@.contains(x) {
            let j = choose|j: int| 0 <= j < v@.len() && v@[j] == x;
            assert(v@[j] != x);
        }
    }
    false
}

/// Whether every target index of the row is below the target count.
pub fn check_row_targets(row: &CompactRow, n_targets: usize) -> (r: bool)
    ensures
        r == row_targets_valid(*row, n_targets as int),
{
    if row.last_target as usize >= n_targets {
        return false;
    }
    let mut i: usize = 0;
    while i < row.edges.len()
        invariant
            i <= row.edges@.len(),
            row.last_target < n_targets,
            forall|e: int| 0 <= e < i ==> (#[trigger] row.edges@[e]).0 < n_targets,
        decreases row.edges@.len() - i,
    {
        let (t, _) = row.edges[i];
        if t as usize >= n_targets {
            return false;
        }
        i = i + 1;
    }
    true
}

/// The sum of the row's explicit shares.
pub fn sum_row_shares(row: &CompactRow) -> (r: u32)
    requires
        row.edges@.len() <= 16,
    ensures
        r == sum_shares(row.edges@),
{
    let mut sum: u32 = 0;
    let mut i: usize = 0;
    while i < row.edges.len()
        invariant
            i <= row.edges@.len(),
            row.edges@.len() <= 16,
            sum == sum_shares(row.edges@.take(i as int)),
            sum <= i * 65535,
        decreases row.edges@.len() - i,
    {
        let (_, p) = row.edges[i];
        proof {
            assert(row.edges@.take(i + 1).drop_last() =~= row.edges@.take(i as int));
            assert(row.edges@.take(i + 1).last() == row.edges@[i as int]);
        }
        sum = sum + p as u32;
        i = i + 1;
    }
    proof {
        assert(row.edges@.take(row.edges@.len() as int) =~= row.edges@);
    }
    sum
}

/// A support mirrors a run of backings: same backers, same weights, and
/// the saturating total of the weights.
pub open spec fn support_matches(sup: Support, entries: Seq<(u64, int)>) -> bool {
    &&& sup.total == total_of(entries)
    &&& sup.voters@.len() == entries.len()
    &&& forall|e: int|
        0 <= e < entries.len() ==> (#[trigger] sup.voters@[e]).0 == entries[e].0
            && sup.voters@[e].1 == entries[e].1
}

/// The supports hold, slot by slot, exactly the contributions seen so
/// far: the first slot of each account carries its filtered backings,
/// and a duplicate slot stays empty.
pub open spec fn supports_state(
    sups: Seq<(u64, Support)>,
    winners: Seq<u64>,
    cs: Seq<Contrib>,
) -> bool {
    &&& sups.len() == winners.len()
    &&& forall|i: int| 0 <= i < sups.len() ==> (#[trigger] sups[i]).0 == winners[i]
    &&& forall|i: int|
        0 <= i < sups.len() && winner_pos(winners, winners[i]) == i ==> support_matches(
            (#[trigger] sups[i]).1,
            contribs_for(cs, winners[i]),
        )
    &&& forall|i: int|
        0 <= i < sups.len() && winner_pos(winners, winners[i]) != i
            ==> (#[trigger] sups[i]).1.total == 0 && sups[i].1.voters@.len() == 0
}

/// Filtering one more contribution keeps all other accounts' backings and
/// appends to the matching account's.
proof fn lemma_contribs_for_push(cs: Seq<Contrib>, c: Contrib, acct: u64)
    ensures
        c.0 == acct ==> contribs_for(cs.push(c), acct) == contribs_for(cs, acct).push(
            (c.1, c.2),
        ),
        c.0 != acct ==> contribs_for(cs.push(c), acct) == contribs_for(cs, acct),
{
    assert(cs.push(c).drop_last() =~= cs);
    assert(cs.push(c).last() == c);
    if c.0 == acct {
        assert(contribs_for(cs, acct) + seq![(c.1, c.2)] =~= contribs_for(cs, acct).push(
            (c.1, c.2)));
    } else {
        assert(contribs_for(cs, acct) + Seq::<(u64, int)>::empty() =~= contribs_for(cs, acct));
    }
}

/// Books one contribution into the first support slot of its winner.
fn add_contribution(
    supports: &mut Vec<(u64, Support)>,
    Ghost(winners): Ghost<Seq<u64>>,
    Ghost(cs): Ghost<Seq<Contrib>>,
    target: u64,
    voter: u64,
    weight: u64,
)
    requires
        supports_state(old(supports)@, winners, cs),
        winner_pos(winners, target) >= 0,
    ensures
        supports_state(final(supports)@, winners, cs.push((target, voter, weight as int))),
{
    let ghost s0 = supports@;
    let mut i: usize = 0;
    while i < supports.len()
        invariant
            supports@ == s0,
            supports_state(s0, winners, cs),
            winner_pos(winners, target) >= 0,
            i <= s0.len(),
            forall|j: int| 0 <= j < i ==> (#[trigger] s0[j]).0 != target,
        decreases s0.len() - i,
    {
        if supports[i].0 == target {
            proof {
                lemma_winner_pos_props(winners, target);
                assert(winner_pos(winners, target) == i) by {
                    let p = winner_pos(winners, target);
                    if p < i {
                        assert(s0[p].0 == winners[p] && winners[p] == target);
                    }
                    if p > i {
                        assert(winners[i as int] != target && s0[i as int].0
                            == winners[i as int]);
                    }
                }
            }
            let cur_total = supports[i].1.total;
            let new_total = if cur_total <= u128::MAX - weight as u128 {
                cur_total + weight as u128
            } else {
                u128::MAX
            };
            let entry = &mut supports[i];
            entry.1.total = new_total;
            entry.1.voters.push((voter, weight as u128));
            proof {
                let c = (target, voter, weight as int);
                let cs2 = cs.push(c);
                assert(supports@ =~= s0.update(i as int, supports@[i as int]));
                assert forall|j: int|
                    0 <= j < supports@.len() && winner_pos(winners, winners[j]) == j
                    implies support_matches((#[trigger] supports@[j]).1, contribs_for(cs2,
                        winners[j])) by {
                    lemma_contribs_for_push(cs, c, winners[j]);
                    if j == i {
                        let prev = contribs_for(cs, target);
                        assert(prev.push((voter, weight as int)).drop_last() =~= prev);
                        assert(total_of(prev.push((voter, weight as int)))
                            == sat_add_u128(total_of(prev), weight as int));
                        assert(support_matches(supports@[j].1, prev.push(
                            (voter, weight as int))));
                    } else {
                        assert(winners[j] != target);
                        assert(supports@[j] == s0[j]);
                    }
                }
                assert forall|j: int|
                    0 <= j < supports@.len() && winner_pos(winners, winners[j]) != j
                    implies (#[trigger] supports@[j]).1.total == 0
                        && supports@[j].1.voters@.len() == 0 by {
                    if j == i {
                        assert(winner_pos(winners, winners[i as int]) == i);
                    } else {
                        assert(supports@[j] == s0[j]);
                    }
                }
            }
            return;
        }
        i = i + 1;
    }
    proof {
        lemma_winner_pos_props(winners, target);
        let p = winner_pos(winners, target);
        assert(s0[p].0 == winners[p] && winners[p] == target);
    }
}

/// Whether every vote of the row lies inside its voter's nominations.
fn check_row_nominated(row: &CompactRow, s: &Snapshot) -> (r: bool)
    requires
        row_voter_valid(*row, s.voters@.len() as int),
        row_targets_valid(*row, s.targets@.len() as int),
    ensures
        r == row_nominated(*row, *s),
{
    let voter_entry = &s.voters[row.voter as usize];
    let noms = &voter_entry.2;
    if !contains_account(noms, s.targets[row.last_target as usize]) {
        return false;
    }
    let mut i: usize = 0;
    while i < row.edges.len()
        invariant
            row_voter_valid(*row, s.voters@.len() as int),
            row_targets_valid(*row, s.targets@.len() as int),
            noms == s.voters@[row.voter as int].2,
            i <= row.edges@.len(),
            noms@.contains(s.targets@[row.last_target as int]),
            forall|e: int|
                0 <= e < i ==> noms@.contains(
                    s.targets@[(#[trigger] row.edges@[e]).0 as int],
                ),
        decreases row.edges@.len() - i,
    {
        let (t, _) = row.edges[i];
        if !contains_account(noms, s.targets[t as usize]) {
            return false;
        }
        i = i + 1;
    }
    true
}

/// Whether every voter index of the solution resolves.
pub fn check_voters_valid(c: &CompactSolution, n_voters: usize) -> (r: bool)
    ensures
        r == voters_valid(*c, n_voters as int),
{
    let mut k: usize = 0;
    while k < c.buckets.len()
        invariant
            k <= c.buckets@.len(),
            forall|kk: int, jj: int|
                0 <= kk < k && 0 <= jj < c.buckets@[kk]@.len() ==> row_voter_valid(
                    #[trigger] c.buckets@[kk]@[jj],
                    n_voters as int,
                ),
        decreases c.buckets@.len() - k,
    {
        let bucket = &c.buckets[k];
        let mut j: usize = 0;
        while j < bucket.len()
            invariant
                k < c.buckets@.len(),
                bucket == c.buckets@[k as int],
                j <= bucket@.len(),
                forall|kk: int, jj: int|
                    0 <= kk < k && 0 <= jj < c.buckets@[kk]@.len() ==> row_voter_valid(
                        #[trigger] c.buckets@[kk]@[jj],
                        n_voters as int,
                    ),
                forall|jj: int|
                    0 <= jj < j ==> row_voter_valid(
                        #[trigger] c.buckets@[k as int]@[jj],
                        n_voters as int,
                    ),
            decreases bucket@.len() - j,
        {
            if bucket[j].voter as usize >= n_voters {
                return false;
            }
            j = j + 1;
        }
        k = k + 1;
    }
    true
}

/// Whether every row's share sum leaves room for the final share.
pub fn check_shares_valid(c: &CompactSolution) -> (r: bool)
    requires
        c.wf(),
    ensures
        r == shares_valid(*c),
{
    let mut k: usize = 0;
    while k < c.buckets.len()
        invariant
            c.wf(),
            k <= c.buckets@.len(),
            forall|kk: int, jj: int|
                0 <= kk < k && 0 <= jj < c.buckets@[kk]@.len() ==> row_shares_valid(
                    #[trigger] c.buckets@[kk]@[jj],
                ),
        decreases c.buckets@.len() - k,
    {
        let bucket = &c.buckets[k];
        let mut j: usize = 0;
        while j < bucket.len()
            invariant
                c.wf(),
                k < c.buckets@.len(),
                bucket == c.buckets@[k as int],
                j <= bucket@.len(),
                forall|kk: int, jj: int|
                    0 <= kk < k && 0 <= jj < c.buckets@[kk]@.len() ==> row_shares_valid(
                        #[trigger] c.buckets@[kk]@[jj],
                    ),
                forall|jj: int|
                    0 <= jj < j ==> row_shares_valid(#[trigger] c.buckets@[k as int]@[jj]),
            decreases bucket@.len() - j,
        {
            let row = &bucket[j];
            let sum = sum_row_shares(row);
            if sum >= SHARE_UNIT as u32 {
                return false;
            }
            j = j + 1;
        }
        k = k + 1;
    }
    true
}

/// Whether every vote lies inside its voter's nominations.
pub fn check_votes_nominated(c: &CompactSolution, s: &Snapshot) -> (r: bool)
    requires
        voters_valid(*c, s.voters@.len() as int),
        targets_valid(*c, s.targets@.len() as int),
    ensures
        r == votes_nominated(*c, *s),
{
    let mut k: usize = 0;
    while k < c.buckets.len()
        invariant
            voters_valid(*c, s.voters@.len() as int),
            targets_valid(*c, s.targets@.len() as int),
            k <= c.buckets@.len(),
            forall|kk: int, jj: int|
                0 <= kk < k && 0 <= jj < c.buckets@[kk]@.len() ==> row_nominated(
                    #[trigger] c.buckets@[kk]@[jj],
                    *s,
                ),
        decreases c.buckets@.len() - k,
    {
        let bucket = &c.buckets[k];
        let mut j: usize = 0;
        while j < bucket.len()
            invariant
                voters_valid(*c, s.voters@.len() as int),
                targets_valid(*c, s.targets@.len() as int),
                k < c.buckets@.len(),
                bucket == c.buckets@[k as int],
                j <= bucket@.len(),
                forall|kk: int, jj: int|
                    0 <= kk < k && 0 <= jj < c.buckets@[kk]@.len() ==> row_nominated(
                        #[trigger] c.buckets@[kk]@[jj],
                        *s,
                    ),
                forall|jj: int|
                    0 <= jj < j ==> row_nominated(#[trigger] c.buckets@[k as int]@[jj], *s),
            decreases bucket@.len() - j,
        {
            let row = &bucket[j];
            proof {
                assert(row_voter_valid(*row, s.voters@.len() as int));
                assert(row_targets_valid(*row, s.targets@.len() as int));
            }
            if !check_row_nominated(row, s) {
                return false;
            }
            j = j + 1;
        }
        k = k + 1;
    }
    true
}

/// A prefix of the stake-weighted edges never exceeds the whole.
proof fn lemma_sum_edge_weights_prefix(edges: Seq<(u16, u16)>, e: int, stake: u64)
    requires
        0 <= e <= edges.len(),
    ensures
        sum_edge_weights(edges.take(e), stake) <= sum_edge_weights(edges, stake),
    decreases edges.len() - e,
{
    if e == edges.len() {
        assert(edges.take(e) =~= edges);
    } else {
        lemma_sum_edge_weights_prefix(edges, e + 1, stake);
        assert(edges.take(e + 1).drop_last() =~= edges.take(e));
        assert(edges.take(e + 1).last() == edges[e]);
        assert(edge_weight(edges[e].1, stake) >= 0) by {
            assert(edges[e].1 * stake >= 0) by (nonlinear_arith)
                requires edges[e].1 >= 0, stake >= 0,
            {}
            vstd::arithmetic::div_mod::lemma_div_pos_is_pos(edges[e].1 * stake,
                SHARE_UNIT as int);
        }
    }
}

/// One stake-weighted share stays within the stake.
proof fn lemma_edge_weight_bounds(parts: u16, stake: u64)
    ensures
        0 <= edge_weight(parts, stake) <= stake,
{
    assert(parts * stake >= 0 && parts * stake <= SHARE_UNIT * stake) by (nonlinear_arith)
        requires 0 <= parts <= SHARE_UNIT, stake >= 0,
    {}
    vstd::arithmetic::div_mod::lemma_div_pos_is_pos(parts * stake, SHARE_UNIT as int);
    lemma_div_le(parts * stake, SHARE_UNIT * stake, SHARE_UNIT as int);
    assert((SHARE_UNIT * stake) / (SHARE_UNIT as int) == stake) by {
        vstd::arithmetic::div_mod::lemma_div_multiples_vanish(stake as int, SHARE_UNIT as int);
    }
}

/// The stake-weighted value of one explicit share.
fn compute_edge_weight(parts: u16, stake: u64) -> (w: u64)
    ensures
        w == edge_weight(parts, stake),
        w <= stake,
{
    proof {
        lemma_edge_weight_bounds(parts, stake);
    }
    ((parts as u128 * stake as u128) / (SHARE_UNIT as u128)) as u64
}

/// Books the contributions of one row into the supports.
fn add_row_contribs(
    supports: &mut Vec<(u64, Support)>,
    row: &CompactRow,
    s: &Snapshot,
    Ghost(winners): Ghost<Seq<u64>>,
    Ghost(cs): Ghost<Seq<Contrib>>,
)
    requires
        supports_state(old(supports)@, winners, cs),
        row_voter_valid(*row, s.voters@.len() as int),
        row_targets_valid(*row, s.targets@.len() as int),
        row_shares_valid(*row),
        forall|t: u16| crate::compact::row_references(*row, t) ==> winner_pos(winners,
            s.targets@[t as int]) >= 0,
    ensures
        supports_state(final(supports)@, winners, cs + row_contribs(*row, *s)),
{
    let voter_entry = &s.voters[row.voter as usize];
    let acct = voter_entry.0;
    let stake = voter_entry.1;
    let ghost rc = row_contribs(*row, *s);
    let mut sum_w: u64 = 0;
    let mut e: usize = 0;
    let ghost cs0 = cs;
    proof {
        assert(rc.len() == row.edges@.len() + 1);
        assert(cs + rc.take(0) =~= cs);
        assert(row.edges@.take(0) =~= Seq::<(u16, u16)>::empty());
    }
    while e < row.edges.len()
        invariant
            supports_state(supports@, winners, cs0 + rc.take(e as int)),
            row_voter_valid(*row, s.voters@.len() as int),
            row_targets_valid(*row, s.targets@.len() as int),
            row_shares_valid(*row),
            forall|t: u16| crate::compact::row_references(*row, t) ==> winner_pos(winners,
                s.targets@[t as int]) >= 0,
            acct == s.voters@[row.voter as int].0,
            stake == s.voters@[row.voter as int].1,
            rc == row_contribs(*row, *s),
            e <= row.edges@.len(),
            sum_w == sum_edge_weights(row.edges@.take(e as int), stake),
            sum_w <= stake,
        decreases row.edges@.len() - e,
    {
        let (t, p) = row.edges[e];
        let w = compute_edge_weight(p, stake);
        proof {
            assert(crate::compact::row_references(*row, t)) by {
                assert(row.edges@[e as int].0 == t);
            }
            assert(rc[e as int] == (s.targets@[t as int], acct, edge_weight(p, stake)));
            assert((cs0 + rc.take(e as int)).push(rc[e as int]) =~= cs0 + rc.take(e + 1));
        }
        add_contribution(supports, Ghost(winners), Ghost(cs0 + rc.take(e as int)),
            s.targets[t as usize], acct, w);
        proof {
            assert(row.edges@.take(e + 1).drop_last() =~= row.edges@.take(e as int));
            assert(row.edges@.take(e + 1).last() == row.edges@[e as int]);
            lemma_sum_edge_weights_prefix(row.edges@, e + 1, stake);
            lemma_row_weights_bounded(row.edges@, stake);
            lemma_edge_weight_bounds(p, stake);
        }
        sum_w = sum_w + w;
        e = e + 1;
    }
    proof {
        assert(row.edges@.take(row.edges@.len() as int) =~= row.edges@);
        lemma_row_weights_bounded(row.edges@, stake);
    }
    let last_w = stake - sum_w;
    proof {
        assert(crate::compact::row_references(*row, row.last_target));
        assert(rc[row.edges@.len() as int] == (s.targets@[row.last_target as int], acct,
            stake - sum_edge_weights(row.edges@, stake)));
        assert((cs0 + rc.take(row.edges@.len() as int)).push(rc[row.edges@.len() as int])
            =~= cs0 + rc);
        assert(rc.take(rc.len() as int) =~= rc);
    }
    add_contribution(supports, Ghost(winners), Ghost(cs0 + rc.take(row.edges@.len() as int)),
        s.targets[row.last_target as usize], acct, last_w);
}

/// Resolves the winners of a solution and rebuilds its supports and
/// score from the snapshot, from first principles.
pub fn compute_supports_and_score(c: &CompactSolution, s: &Snapshot) -> (r: (
    Vec<(u64, Support)>,
    ElectionScore,
))
    requires
        c.wf(),
        targets_valid(*c, s.targets@.len() as int),
        voters_valid(*c, s.voters@.len() as int),
        shares_valid(*c),
    ensures
        supports_state(r.0@, spec_winners(*c, *s), solution_contribs(*c, *s)),
        r.1 == spec_score(*c, *s),
{
    let winners_idx = c.unique_targets();
    proof {
        lemma_unique_targets_agree(*c, winners_idx@);
    }
    let mut winners: Vec<u64> = Vec::new();
    let mut i: usize = 0;
    while i < winners_idx.len()
        invariant
            (*c).wf(),
            targets_valid(*c, s.targets@.len() as int),
            winners_idx@ == spec_unique_targets(*c),
            forall|t: u16| winners_idx@.contains(t) <==> c.references_target(t),
            i <= winners_idx@.len(),
            winners@.len() == i,
            forall|a: int| 0 <= a < i ==> (#[trigger] winners_idx@[a]) < s.targets@.len(),
            forall|a: int| 0 <= a < i ==> (#[trigger] winners@[a])
                == s.targets@[winners_idx@[a] as int],
        decreases winners_idx@.len() - i,
    {
        let idx = winners_idx[i];
        proof {
            if idx as int >= s.targets@.len() {
                assert(c.references_target(idx));
                let (k, j) = choose|k: int, j: int|
                    0 <= k < c.buckets@.len() && 0 <= j < c.buckets@[k]@.len()
                        && crate::compact::row_references(#[trigger] c.buckets@[k]@[j], idx);
                assert(row_targets_valid(c.buckets@[k]@[j], s.targets@.len() as int));
                assert(false);
            }
        }
        winners.push(s.targets[idx as usize]);
        i = i + 1;
    }
    proof {
        assert(winners@ =~= spec_winners(*c, *s));
    }
    let ghost winners_seq = winners@;
    let mut supports: Vec<(u64, Support)> = Vec::new();
    let mut i: usize = 0;
    while i < winners.len()
        invariant
            i <= winners@.len(),
            supports@.len() == i,
            forall|a: int| 0 <= a < i ==> (#[trigger] supports@[a]).0 == winners@[a]
                && supports@[a].1.total == 0 && supports@[a].1.voters@.len() == 0,
        decreases winners@.len() - i,
    {
        let acct = winners[i];
        supports.push((acct, Support { total: 0, voters: Vec::new() }));
        i = i + 1;
    }
    proof {
        assert(supports_state(supports@, winners_seq, Seq::<Contrib>::empty()));
    }
    let ghost mut cs: Seq<Contrib> = Seq::empty();
    let mut k: usize = 0;
    proof {
        assert(buckets_contribs(c.buckets@.take(0), *s) =~= Seq::<Contrib>::empty());
        assert(cs =~= buckets_contribs(c.buckets@.take(0), *s));
    }
    while k < c.buckets.len()
        invariant
            (*c).wf(),
            winners_seq == spec_winners(*c, *s),
            forall|t: u16| spec_unique_targets(*c).contains(t) <==> c.references_target(t),
            forall|a: int| 0 <= a < spec_unique_targets(*c).len()
                ==> (#[trigger] spec_unique_targets(*c)[a]) < s.targets@.len(),
            targets_valid(*c, s.targets@.len() as int),
            voters_valid(*c, s.voters@.len() as int),
            shares_valid(*c),
            k <= c.buckets@.len(),
            cs == buckets_contribs(c.buckets@.take(k as int), *s),
            supports_state(supports@, winners_seq, cs),
        decreases c.buckets@.len() - k,
    {
        let bucket = &c.buckets[k];
        let mut j: usize = 0;
        let ghost cs_bucket = cs;
        proof {
            assert(rows_contribs(bucket@.take(0), *s) =~= Seq::<Contrib>::empty());
            assert(cs =~= cs_bucket + rows_contribs(bucket@.take(0), *s));
        }
        while j < bucket.len()
            invariant
                (*c).wf(),
                winners_seq == spec_winners(*c, *s),
                forall|t: u16| spec_unique_targets(*c).contains(t) <==> c.references_target(t),
                forall|a: int| 0 <= a < spec_unique_targets(*c).len()
                    ==> (#[trigger] spec_unique_targets(*c)[a]) < s.targets@.len(),
                targets_valid(*c, s.targets@.len() as int),
                voters_valid(*c, s.voters@.len() as int),
                shares_valid(*c),
                k < c.buckets@.len(),
                bucket == c.buckets@[k as int],
                j <= bucket@.len(),
                cs == cs_bucket + rows_contribs(bucket@.take(j as int), *s),
                cs_bucket == buckets_contribs(c.buckets@.take(k as int), *s),
                supports_state(supports@, winners_seq, cs),
            decreases bucket@.len() - j,
        {
            let row = &bucket[j];
            proof {
                assert(row_voter_valid(*row, s.voters@.len() as int));
                assert(row_targets_valid(*row, s.targets@.len() as int));
                assert(row_shares_valid(*row));
                assert forall|t: u16| crate::compact::row_references(*row, t)
                    implies winner_pos(winners_seq, s.targets@[t as int]) >= 0 by {
                    assert(c.references_target(t));
                    let a = choose|a: int|
                        0 <= a < spec_unique_targets(*c).len()
                            && spec_unique_targets(*c)[a] == t;
                    assert(winners_seq[a] == s.targets@[t as int]);
                    lemma_winner_pos_props(winners_seq, s.targets@[t as int]);
                    if winner_pos(winners_seq, s.targets@[t as int]) == -1 {
                        assert(winners_seq[a] != s.targets@[t as int]);
                    }
                }
            }
            add_row_contribs(&mut supports, row, s, Ghost(winners_seq), Ghost(cs));
            proof {
                assert(bucket@.take(j + 1).drop_last() =~= bucket@.take(j as int));
                assert(bucket@.take(j + 1).last() == bucket@[j as int]);
                cs = cs + row_contribs(*row, *s);
                assert(cs =~= cs_bucket + rows_contribs(bucket@.take(j + 1), *s));
            }
            j = j + 1;
        }
        proof {
            assert(bucket@.take(bucket@.len() as int) =~= bucket@);
            assert(c.buckets@.take(k + 1).drop_last() =~= c.buckets@.take(k as int));
            assert(c.buckets@.take(k + 1).last() == c.buckets@[k as int]);
            assert(cs =~= buckets_contribs(c.buckets@.take(k + 1), *s));
        }
        k = k + 1;
    }
    proof {
        assert(c.buckets@.take(c.buckets@.len() as int) =~= c.buckets@);
        assert(cs == solution_contribs(*c, *s));
    }
    let mut sum: u128 = 0;
    let mut min_sup: u128 = u128::MAX;
    let mut sumsq: u128 = 0;
    let mut i: usize = 0;
    while i < supports.len()
        invariant
            supports_state(supports@, winners_seq, cs),
            i <= supports@.len(),
            sum == score_sum_upto(winners_seq, cs, i as int),
            min_sup == score_min_upto(winners_seq, cs, i as int),
            sumsq == score_sumsq_upto(winners_seq, cs, i as int),
        decreases supports@.len() - i,
    {
        let t = supports[i].1.total;
        proof {
            assert(t == slot_total(winners_seq, cs, i as int));
        }
        sum = if sum <= u128::MAX - t {
            sum + t
        } else {
            u128::MAX
        };
        if t < min_sup {
            min_sup = t;
        }
        proof {
            if t > 0 {
                assert(t <= u128::MAX / t ==> t * t <= u128::MAX) by (nonlinear_arith)
                    requires t >= 1,
                {}
                assert(t > u128::MAX / t ==> t * t > u128::MAX) by (nonlinear_arith)
                    requires t >= 1,
                {}
            }
        }
        let sq: u128 = if t == 0 {
            0
        } else if t <= u128::MAX / t {
            t * t
        } else {
            u128::MAX
        };
        sumsq = if sumsq <= u128::MAX - sq {
            sumsq + sq
        } else {
            u128::MAX
        };
        i = i + 1;
    }
    let known = ElectionScore { sum_stake: sum, min_support: min_sup, sum_squared: sumsq };
    proof {
        assert(known == spec_score(*c, *s));
    }
    (supports, known)
}

/// When every winner index resolves, every target index of every row
/// does: the winner sweep collects them all.
proof fn lemma_targets_valid_from_winners(c: CompactSolution, winners_idx: Seq<u16>, s: Snapshot)
    requires
        winners_idx == spec_unique_targets(c),
        forall|t: u16| winners_idx.contains(t) <==> c.references_target(t),
        forall|a: int| 0 <= a < winners_idx.len() ==> (#[trigger] winners_idx[a]) < s.targets@.len(),
    ensures
        targets_valid(c, s.targets@.len() as int),
{
    assert forall|k: int, j: int|
        0 <= k < c.buckets@.len() && 0 <= j < c.buckets@[k]@.len()
        implies row_targets_valid(#[trigger] c.buckets@[k]@[j], s.targets@.len() as int) by {
        let row = c.buckets@[k]@[j];
        assert(crate::compact::row_references(row, row.last_target));
        assert(c.references_target(row.last_target));
        let a = choose|a: int|
            0 <= a < winners_idx.len() && winners_idx[a] == row.last_target;
        assert(winners_idx[a] < s.targets@.len());
        assert forall|ei: int| 0 <= ei < row.edges@.len()
            implies (#[trigger] row.edges@[ei]).0 < s.targets@.len() by {
            let t = row.edges@[ei].0;
            assert(crate::compact::row_references(row, t));
            assert(c.references_target(t));
            let a2 = choose|a2: int|
                0 <= a2 < winners_idx.len() && winners_idx[a2] == t;
            assert(winners_idx[a2] < s.targets@.len());
        }
    }
}

/// Every contribution carries a nonnegative weight.
pub open spec fn contribs_nonneg(cs: Seq<Contrib>) -> bool {
    forall|i: int| 0 <= i < cs.len() ==> (#[trigger] cs[i]).2 >= 0
}

/// Every backing entry carries a nonnegative weight.
pub open spec fn entries_nonneg(es: Seq<(u64, int)>) -> bool {
    forall|i: int| 0 <= i < es.len() ==> (#[trigger] es[i]).1 >= 0
}

/// Filtering distributes over concatenation.
proof fn lemma_contribs_for_concat(x: Seq<Contrib>, y: Seq<Contrib>, acct: u64)
    ensures
        contribs_for(x + y, acct) == contribs_for(x, acct) + contribs_for(y, acct),
    decreases y.len(),
{
    if y.len() == 0 {
        assert(x + y =~= x);
        assert(contribs_for(x, acct) + contribs_for(y, acct) =~= contribs_for(x, acct));
    } else {
        lemma_contribs_for_concat(x, y.drop_last(), acct);
        assert((x + y).drop_last() =~= x + y.drop_last());
        assert((x + y).last() == y.last());
        if y.last().0 == acct {
            assert(contribs_for(x, acct) + (contribs_for(y.drop_last(), acct)
                + seq![(y.last().1, y.last().2)])
                =~= (contribs_for(x, acct) + contribs_for(y.drop_last(), acct))
                    + seq![(y.last().1, y.last().2)]);
        } else {
            assert(contribs_for(y.drop_last(), acct) + Seq::<(u64, int)>::empty()
                =~= contribs_for(y.drop_last(), acct));
            assert((contribs_for(x, acct) + contribs_for(y.drop_last(), acct))
                + Seq::<(u64, int)>::empty()
                =~= contribs_for(x, acct) + contribs_for(y.drop_last(), acct));
        }
    }
}

/// Filtering keeps weights nonnegative.
proof fn lemma_contribs_for_nonneg(cs: Seq<Contrib>, acct: u64)
    requires
        contribs_nonneg(cs),
    ensures
        entries_nonneg(contribs_for(cs, acct)),
    decreases cs.len(),
{
    if cs.len() > 0 {
        assert(contribs_nonneg(cs.drop_last())) by {
            assert(forall|i: int| 0 <= i < cs.drop_last().len()
                ==> (#[trigger] cs.drop_last()[i]) == cs[i]);
        }
        lemma_contribs_for_nonneg(cs.drop_last(), acct);
        let f = contribs_for(cs, acct);
        let fd = contribs_for(cs.drop_last(), acct);
        assert forall|i: int| 0 <= i < f.len() implies (#[trigger] f[i]).1 >= 0 by {
            if i < fd.len() {
                assert(f[i] == fd[i]);
            } else {
                assert(cs[cs.len() - 1].2 >= 0);
            }
        }
    }
}

/// The saturating total of nonnegative entries sits between zero and the
/// widest balance.
proof fn lemma_total_of_bounds(es: Seq<(u64, int)>)
    requires
        entries_nonneg(es),
    ensures
        0 <= total_of(es) <= u128::MAX,
    decreases es.len(),
{
    if es.len() > 0 {
        assert(entries_nonneg(es.drop_last())) by {
            assert(forall|i: int| 0 <= i < es.drop_last().len()
                ==> (#[trigger] es.drop_last()[i]) == es[i]);
        }
        lemma_total_of_bounds(es.drop_last());
    }
}

/// Appending nonnegative entries never lowers the saturating total.
proof fn lemma_total_of_append_ge(x: Seq<(u64, int)>, y: Seq<(u64, int)>)
    requires
        entries_nonneg(x),
        entries_nonneg(y),
    ensures
        total_of(x) <= total_of(x + y),
    decreases y.len(),
{
    if y.len() == 0 {
        assert(x + y =~= x);
    } else {
        assert(entries_nonneg(y.drop_last())) by {
            assert(forall|i: int| 0 <= i < y.drop_last().len()
                ==> (#[trigger] y.drop_last()[i]) == y[i]);
        }
        lemma_total_of_append_ge(x, y.drop_last());
        assert(entries_nonneg(x + y.drop_last())) by {
            assert(forall|i: int| 0 <= i < (x + y.drop_last()).len()
                ==> (#[trigger] (x + y.drop_last())[i]).1 >= 0);
        }
        lemma_total_of_bounds(x + y.drop_last());
        assert((x + y).drop_last() =~= x + y.drop_last());
        assert((x + y).last() == y.last());
        assert(total_of(x + y) == sat_add_u128(total_of(x + y.drop_last()), y.last().1));
    }
}

/// Cutting a middle run of nonnegative entries never raises the total.
proof fn lemma_total_of_cut_segment(
    x: Seq<(u64, int)>,
    y: Seq<(u64, int)>,
    z: Seq<(u64, int)>,
)
    requires
        entries_nonneg(x),
        entries_nonneg(y),
        entries_nonneg(z),
    ensures
        total_of(x + z) <= total_of(x + y + z),
    decreases z.len(),
{
    if z.len() == 0 {
        assert(x + z =~= x);
        assert(x + y + z =~= x + y);
        lemma_total_of_append_ge(x, y);
    } else {
        assert(entries_nonneg(z.drop_last())) by {
            assert(forall|i: int| 0 <= i < z.drop_last().len()
                ==> (#[trigger] z.drop_last()[i]) == z[i]);
        }
        lemma_total_of_cut_segment(x, y, z.drop_last());
        assert((x + z).drop_last() =~= x + z.drop_last());
        assert((x + z).last() == z.last());
        assert((x + y + z).drop_last() =~= x + y + z.drop_last());
        assert((x + y + z).last() == z.last());
    }
}

/// With the winner list fixed, cutting out a run of contributions never
/// raises any backing slot.
proof fn lemma_slot_total_cut(
    winners: Seq<u64>,
    a: Seq<Contrib>,
    b: Seq<Contrib>,
    c: Seq<Contrib>,
    i: int,
)
    requires
        0 <= i < winners.len(),
        contribs_nonneg(a),
        contribs_nonneg(b),
        contribs_nonneg(c),
    ensures
        0 <= slot_total(winners, a + c, i) <= slot_total(winners, a + b + c, i),
{
    let acct = winners[i];
    lemma_contribs_for_concat(a, c, acct);
    lemma_contribs_for_concat(a, b, acct);
    lemma_contribs_for_concat(a + b, c, acct);
    lemma_contribs_for_nonneg(a, acct);
    lemma_contribs_for_nonneg(b, acct);
    lemma_contribs_for_nonneg(c, acct);
    let fa = contribs_for(a, acct);
    let fb = contribs_for(b, acct);
    let fc = contribs_for(c, acct);
    assert(contribs_for(a + b + c, acct) == (fa + fb) + fc);
    lemma_total_of_cut_segment(fa, fb, fc);
    assert(fa + fb + fc =~= (fa + fb) + fc);
    if winner_pos(winners, acct) == i {
        assert(entries_nonneg(fa + fc)) by {
            assert(forall|e: int| 0 <= e < (fa + fc).len()
                ==> (#[trigger] (fa + fc)[e]).1 >= 0);
        }
        lemma_total_of_bounds(fa + fc);
    }
}

/// With the winner list fixed, cutting out a run of contributions never
/// raises any component of the recomputed score: the totals, the least
/// backing, and the sum of squares all stay or fall.
pub proof fn lemma_score_shrinks_without_segment(
    winners: Seq<u64>,
    a: Seq<Contrib>,
    b: Seq<Contrib>,
    c: Seq<Contrib>,
    n: int,
)
    requires
        0 <= n <= winners.len(),
        contribs_nonneg(a),
        contribs_nonneg(b),
        contribs_nonneg(c),
    ensures
        score_sum_upto(winners, a + c, n) <= score_sum_upto(winners, a + b + c, n),
        score_min_upto(winners, a + c, n) <= score_min_upto(winners, a + b + c, n),
        score_sumsq_upto(winners, a + c, n) <= score_sumsq_upto(winners, a + b + c, n),
    decreases n,
{
    if n > 0 {
        lemma_score_shrinks_without_segment(winners, a, b, c, n - 1);
        lemma_slot_total_cut(winners, a, b, c, n - 1);
        let s1 = slot_total(winners, a + c, n - 1);
        let s2 = slot_total(winners, a + b + c, n - 1);
        assert(sat_mul_u128(s1, s1) <= sat_mul_u128(s2, s2)) by {
            assert(s1 * s1 <= s2 * s2) by (nonlinear_arith)
                requires 0 <= s1 <= s2,
            {}
        }
    }
}

/// Joining nonnegative runs keeps them nonnegative.
proof fn lemma_contribs_nonneg_concat(x: Seq<Contrib>, y: Seq<Contrib>)
    requires
        contribs_nonneg(x),
        contribs_nonneg(y),
    ensures
        contribs_nonneg(x + y),
{
    assert forall|i: int| 0 <= i < (x + y).len() implies (#[trigger] (x + y)[i]).2 >= 0 by {
        if i < x.len() {
            assert((x + y)[i] == x[i]);
        } else {
            assert((x + y)[i] == y[i - x.len()]);
        }
    }
}

/// A row with a valid share sum contributes only nonnegative weights.
proof fn lemma_row_contribs_nonneg(row: CompactRow, s: Snapshot)
    requires
        row_shares_valid(row),
    ensures
        contribs_nonneg(row_contribs(row, s)),
{
    let stake = s.voters@[row.voter as int].1;
    let rc = row_contribs(row, s);
    lemma_row_weights_bounded(row.edges@, stake);
    assert forall|i: int| 0 <= i < rc.len() implies (#[trigger] rc[i]).2 >= 0 by {
        if i < row.edges@.len() {
            lemma_edge_weight_bounds(row.edges@[i].1, stake);
        }
    }
}

/// Rows with valid share sums contribute only nonnegative weights.
proof fn lemma_rows_contribs_nonneg(rows: Seq<CompactRow>, s: Snapshot)
    requires
        forall|i: int| 0 <= i < rows.len() ==> row_shares_valid(#[trigger] rows[i]),
    ensures
        contribs_nonneg(rows_contribs(rows, s)),
    decreases rows.len(),
{
    if rows.len() > 0 {
        assert(forall|i: int| 0 <= i < rows.drop_last().len()
            ==> row_shares_valid(#[trigger] rows.drop_last()[i]));
        lemma_rows_contribs_nonneg(rows.drop_last(), s);
        lemma_row_contribs_nonneg(rows.last(), s);
        lemma_contribs_nonneg_concat(rows_contribs(rows.drop_last(), s),
            row_contribs(rows.last(), s));
    }
}

/// Buckets of rows with valid share sums contribute only nonnegative
/// weights.
proof fn lemma_buckets_contribs_nonneg(bs: Seq<Vec<CompactRow>>, s: Snapshot)
    requires
        forall|k: int, j: int|
            0 <= k < bs.len() && 0 <= j < bs[k]@.len() ==> row_shares_valid(
                #[trigger] bs[k]@[j],
            ),
    ensures
        contribs_nonneg(buckets_contribs(bs, s)),
    decreases bs.len(),
{
    if bs.len() > 0 {
        assert(forall|k: int, j: int|
            0 <= k < bs.drop_last().len() && 0 <= j < bs.drop_last()[k]@.len()
                ==> row_shares_valid(#[trigger] bs.drop_last()[k]@[j]));
        lemma_buckets_contribs_nonneg(bs.drop_last(), s);
        assert(forall|j: int| 0 <= j < bs.last()@.len()
            ==> row_shares_valid(#[trigger] bs.last()@[j]));
        lemma_rows_contribs_nonneg(bs.last()@, s);
        lemma_contribs_nonneg_concat(buckets_contribs(bs.drop_last(), s),
            rows_contribs(bs.last()@, s));
    }
}

/// Row contributions distribute over concatenation of row runs.
proof fn lemma_rows_contribs_concat(x: Seq<CompactRow>, y: Seq<CompactRow>, s: Snapshot)
    ensures
        rows_contribs(x + y, s) == rows_contribs(x, s) + rows_contribs(y, s),
    decreases y.len(),
{
    if y.len() == 0 {
        assert(x + y =~= x);
        assert(rows_contribs(x, s) + rows_contribs(y, s) =~= rows_contribs(x, s));
    } else {
        lemma_rows_contribs_concat(x, y.drop_last(), s);
        assert((x + y).drop_last() =~= x + y.drop_last());
        assert((x + y).last() == y.last());
        assert(rows_contribs(x, s) + (rows_contribs(y.drop_last(), s)
            + row_contribs(y.last(), s))
            =~= (rows_contribs(x, s) + rows_contribs(y.drop_last(), s))
                + row_contribs(y.last(), s));
    }
}

/// Bucket contributions distribute over concatenation of bucket runs.
proof fn lemma_buckets_contribs_concat(
    x: Seq<Vec<CompactRow>>,
    y: Seq<Vec<CompactRow>>,
    s: Snapshot,
)
    ensures
        buckets_contribs(x + y, s) == buckets_contribs(x, s) + buckets_contribs(y, s),
    decreases y.len(),
{
    if y.len() == 0 {
        assert(x + y =~= x);
        assert(buckets_contribs(x, s) + buckets_contribs(y, s) =~= buckets_contribs(x, s));
    } else {
        lemma_buckets_contribs_concat(x, y.drop_last(), s);
        assert((x + y).drop_last() =~= x + y.drop_last());
        assert((x + y).last() == y.last());
        assert(buckets_contribs(x, s) + (buckets_contribs(y.drop_last(), s)
            + rows_contribs(y.last()@, s))
            =~= (buckets_contribs(x, s) + buckets_contribs(y.drop_last(), s))
                + rows_contribs(y.last()@, s));
    }
}

/// The score folds over nonnegative contributions stay within the
/// balance range.
proof fn lemma_score_folds_bounds(winners: Seq<u64>, cs: Seq<Contrib>, n: int)
    requires
        0 <= n <= winners.len(),
        contribs_nonneg(cs),
    ensures
        0 <= score_sum_upto(winners, cs, n) <= u128::MAX,
        0 <= score_min_upto(winners, cs, n) <= u128::MAX,
        0 <= score_sumsq_upto(winners, cs, n) <= u128::MAX,
    decreases n,
{
    if n > 0 {
        lemma_score_folds_bounds(winners, cs, n - 1);
        lemma_contribs_for_nonneg(cs, winners[n - 1]);
        lemma_total_of_bounds(contribs_for(cs, winners[n - 1]));
        let t = slot_total(winners, cs, n - 1);
        assert(t * t >= 0) by (nonlinear_arith)
            requires t >= 0,
        {}
    }
}

/// Dropping one voter's row, when every referenced target survives,
/// never raises any component of the recomputed score: the total
/// backing, the least backing, and the sum of squares all stay or fall.
pub proof fn lemma_score_never_rises_after_removal(
    c0: CompactSolution,
    c1: CompactSolution,
    s: Snapshot,
    k: int,
    j: int,
)
    requires
        shares_valid(c0),
        c1.buckets@.len() == c0.buckets@.len(),
        0 <= k < c0.buckets@.len(),
        0 <= j < c0.buckets@[k]@.len(),
        c1.buckets@[k]@ == c0.buckets@[k]@.remove(j),
        forall|kk: int|
            0 <= kk < c0.buckets@.len() && kk != k
                ==> (#[trigger] c1.buckets@[kk]) == c0.buckets@[kk],
        spec_unique_targets(c1) == spec_unique_targets(c0),
    ensures
        spec_score(c1, s).sum_stake <= spec_score(c0, s).sum_stake,
        spec_score(c1, s).min_support <= spec_score(c0, s).min_support,
        spec_score(c1, s).sum_squared <= spec_score(c0, s).sum_squared,
{
    let winners = spec_winners(c0, s);
    assert(spec_winners(c1, s) =~= winners);
    let b0 = c0.buckets@;
    let b1 = c1.buckets@;
    let bk0 = b0[k]@;
    let row = bk0[j];
    // The contributions of the untouched solution split around the row.
    assert(b0 =~= b0.take(k) + seq![b0[k]] + b0.skip(k + 1));
    lemma_buckets_contribs_concat(b0.take(k) + seq![b0[k]], b0.skip(k + 1), s);
    lemma_buckets_contribs_concat(b0.take(k), seq![b0[k]], s);
    assert(buckets_contribs(seq![b0[k]], s) =~= rows_contribs(bk0, s)) by {
        assert(seq![b0[k]].len() == 1);
        assert(seq![b0[k]].last() == b0[k]);
        assert(seq![b0[k]].drop_last() =~= Seq::<Vec<CompactRow>>::empty());
        assert(buckets_contribs(Seq::<Vec<CompactRow>>::empty(), s) =~= Seq::<Contrib>::empty());
        assert(Seq::<Contrib>::empty() + rows_contribs(bk0, s) =~= rows_contribs(bk0, s));
    }
    assert(bk0 =~= bk0.take(j) + seq![row] + bk0.skip(j + 1));
    lemma_rows_contribs_concat(bk0.take(j) + seq![row], bk0.skip(j + 1), s);
    lemma_rows_contribs_concat(bk0.take(j), seq![row], s);
    assert(rows_contribs(seq![row], s) =~= row_contribs(row, s)) by {
        assert(seq![row].len() == 1);
        assert(seq![row].last() == row);
        assert(seq![row].drop_last() =~= Seq::<CompactRow>::empty());
        assert(rows_contribs(Seq::<CompactRow>::empty(), s) =~= Seq::<Contrib>::empty());
        assert(Seq::<Contrib>::empty() + row_contribs(row, s) =~= row_contribs(row, s));
    }
    // The same split for the trimmed solution, with the row cut out.
    assert(b1 =~= b1.take(k) + seq![b1[k]] + b1.skip(k + 1));
    assert(b1.take(k) =~= b0.take(k));
    assert(b1.skip(k + 1) =~= b0.skip(k + 1));
    lemma_buckets_contribs_concat(b1.take(k) + seq![b1[k]], b1.skip(k + 1), s);
    lemma_buckets_contribs_concat(b1.take(k), seq![b1[k]], s);
    assert(buckets_contribs(seq![b1[k]], s) =~= rows_contribs(b1[k]@, s)) by {
        assert(seq![b1[k]].len() == 1);
        assert(seq![b1[k]].last() == b1[k]);
        assert(seq![b1[k]].drop_last() =~= Seq::<Vec<CompactRow>>::empty());
        assert(buckets_contribs(Seq::<Vec<CompactRow>>::empty(), s) =~= Seq::<Contrib>::empty());
        assert(Seq::<Contrib>::empty() + rows_contribs(b1[k]@, s)
            =~= rows_contribs(b1[k]@, s));
    }
    assert(b1[k]@ =~= bk0.take(j) + bk0.skip(j + 1));
    lemma_rows_contribs_concat(bk0.take(j), bk0.skip(j + 1), s);
    let head = buckets_contribs(b0.take(k), s) + rows_contribs(bk0.take(j), s);
    let cut = row_contribs(row, s);
    let tail = rows_contribs(bk0.skip(j + 1), s)
        + buckets_contribs(b0.skip(k + 1), s);
    assert(solution_contribs(c0, s) =~= head + cut + tail);
    assert(solution_contribs(c1, s) =~= head + tail);
    // All weights are nonnegative, so cutting the row only lowers scores.
    assert(forall|kk: int, jj: int|
        0 <= kk < b0.take(k).len() && 0 <= jj < b0.take(k)[kk]@.len()
            ==> row_shares_valid(#[trigger] b0.take(k)[kk]@[jj]));
    lemma_buckets_contribs_nonneg(b0.take(k), s);
    assert(forall|kk: int, jj: int|
        0 <= kk < b0.skip(k + 1).len() && 0 <= jj < b0.skip(k + 1)[kk]@.len()
            ==> row_shares_valid(#[trigger] b0.skip(k + 1)[kk]@[jj]));
    lemma_buckets_contribs_nonneg(b0.skip(k + 1), s);
    assert(forall|jj: int| 0 <= jj < bk0.take(j).len()
        ==> row_shares_valid(#[trigger] bk0.take(j)[jj]));
    lemma_rows_contribs_nonneg(bk0.take(j), s);
    assert(forall|jj: int| 0 <= jj < bk0.skip(j + 1).len()
        ==> row_shares_valid(#[trigger] bk0.skip(j + 1)[jj]));
    lemma_rows_contribs_nonneg(bk0.skip(j + 1), s);
    lemma_row_contribs_nonneg(row, s);
    lemma_contribs_nonneg_concat(buckets_contribs(b0.take(k), s),
        rows_contribs(bk0.take(j), s));
    lemma_contribs_nonneg_concat(rows_contribs(bk0.skip(j + 1), s),
        buckets_contribs(b0.skip(k + 1), s));
    lemma_score_shrinks_without_segment(winners, head, cut, tail, winners.len() as int);
    lemma_contribs_nonneg_concat(head, tail);
    lemma_contribs_nonneg_concat(head + cut, tail);
    lemma_contribs_nonneg_concat(head, cut);
    assert(head + cut + tail =~= (head + cut) + tail);
    lemma_score_folds_bounds(winners, head + tail, winners.len() as int);
    lemma_score_folds_bounds(winners, (head + cut) + tail, winners.len() as int);
}

/// The account-based distribution of one row, final share included.
fn row_distribution(row: &CompactRow, s: &Snapshot) -> (r: (u64, Vec<(u64, u16)>))
    requires
        row_voter_valid(*row, s.voters@.len() as int),
        row_targets_valid(*row, s.targets@.len() as int),
        row_shares_valid(*row),
        row.edges@.len() <= 16,
    ensures
        r.0 == crate::unsigned::row_assignment(*row, *s).0,
        r.1@ == crate::unsigned::row_assignment(*row, *s).1,
{
    let who = s.voters[row.voter as usize].0;
    let sum = sum_row_shares(row);
    let mut dist: Vec<(u64, u16)> = Vec::new();
    let mut e: usize = 0;
    while e < row.edges.len()
        invariant
            row_voter_valid(*row, s.voters@.len() as int),
            row_targets_valid(*row, s.targets@.len() as int),
            e <= row.edges@.len(),
            dist@.len() == e,
            forall|a: int|
                0 <= a < e ==> (#[trigger] dist@[a]) == (
                    s.targets@[row.edges@[a].0 as int],
                    row.edges@[a].1,
                ),
        decreases row.edges@.len() - e,
    {
        let (t, share) = row.edges[e];
        dist.push((s.targets[t as usize], share));
        e = e + 1;
    }
    dist.push((s.targets[row.last_target as usize], (SHARE_UNIT as u32 - sum) as u16));
    proof {
        assert(dist@ =~= crate::unsigned::row_assignment(*row, *s).1);
    }
    (who, dist)
}

/// Whether every row's distribution passes the provider judgment.
fn check_votes_validated<V: DistributionValidator>(
    c: &CompactSolution,
    s: &Snapshot,
    validator: &V,
) -> (r: bool)
    requires
        c.wf(),
        voters_valid(*c, s.voters@.len() as int),
        targets_valid(*c, s.targets@.len() as int),
        shares_valid(*c),
    ensures
        r == votes_validated(*c, *s, *validator),
{
    let mut k: usize = 0;
    while k < c.buckets.len()
        invariant
            c.wf(),
            voters_valid(*c, s.voters@.len() as int),
            targets_valid(*c, s.targets@.len() as int),
            shares_valid(*c),
            k <= c.buckets@.len(),
            forall|kk: int, jj: int|
                0 <= kk < k && 0 <= jj < c.buckets@[kk]@.len() ==> validator.spec_valid(
                    crate::unsigned::row_assignment(#[trigger] c.buckets@[kk]@[jj], *s).0,
                    crate::unsigned::row_assignment(c.buckets@[kk]@[jj], *s).1,
                ),
        decreases c.buckets@.len() - k,
    {
        let bucket = &c.buckets[k];
        let mut j: usize = 0;
        while j < bucket.len()
            invariant
                c.wf(),
                voters_valid(*c, s.voters@.len() as int),
                targets_valid(*c, s.targets@.len() as int),
                shares_valid(*c),
                k < c.buckets@.len(),
                bucket == c.buckets@[k as int],
                j <= bucket@.len(),
                forall|kk: int, jj: int|
                    0 <= kk < k && 0 <= jj < c.buckets@[kk]@.len() ==> validator.spec_valid(
                        crate::unsigned::row_assignment(#[trigger] c.buckets@[kk]@[jj],
                            *s).0,
                        crate::unsigned::row_assignment(c.buckets@[kk]@[jj], *s).1,
                    ),
                forall|jj: int|
                    0 <= jj < j ==> validator.spec_valid(
                        crate::unsigned::row_assignment(
                            #[trigger] c.buckets@[k as int]@[jj], *s).0,
                        crate::unsigned::row_assignment(c.buckets@[k as int]@[jj], *s).1,
                    ),
            decreases bucket@.len() - j,
        {
            let row = &bucket[j];
            proof {
                assert(row_voter_valid(*row, s.voters@.len() as int));
                assert(row_targets_valid(*row, s.targets@.len() as int));
                assert(row_shares_valid(*row));
            }
            let (who, dist) = row_distribution(row, s);
            if !validator.is_valid(who, &dist) {
                return false;
            }
            j = j + 1;
        }
        k = k + 1;
    }
    true
}

/// The single acceptance gate: recomputes everything a solution claims
/// from the frozen snapshot and accepts exactly the feasible ones.
///
/// Succeeds exactly when the solution is feasible, returning the rebuilt
/// supports with the verified score; otherwise reports the first broken
/// rule: wrong winner count, an unresolvable target or voter index, an
/// overflowing share sum, a vote outside the voter's nominations, or a
/// claimed score that differs from the recomputed one.
pub fn feasibility_check<V: DistributionValidator>(
    s: &Snapshot,
    validator: &V,
    solution: &RawSolution,
    compute: ElectionCompute,
) -> (r: Result<ReadySolution, FeasibilityError>)
    requires
        solution.compact.wf(),
    ensures
        r is Ok <==> feasible(*s, *validator, solution.compact, solution.score),
        r matches Ok(ready) ==> {
            &&& ready.score == solution.score
            &&& ready.compute == compute
            &&& supports_state(ready.supports@, spec_winners(solution.compact, *s),
                solution_contribs(solution.compact, *s))
        },
        r == Err::<ReadySolution, FeasibilityError>(FeasibilityError::WrongWinnerCount)
            <==> spec_unique_targets(solution.compact).len() != s.desired_targets,
        r == Err::<ReadySolution, FeasibilityError>(FeasibilityError::InvalidWinner)
            <==> spec_unique_targets(solution.compact).len() == s.desired_targets
                && !targets_valid(solution.compact, s.targets@.len() as int),
        r == Err::<ReadySolution, FeasibilityError>(FeasibilityError::InvalidVoter)
            <==> spec_unique_targets(solution.compact).len() == s.desired_targets
                && targets_valid(solution.compact, s.targets@.len() as int)
                && !voters_valid(solution.compact, s.voters@.len() as int),
        r == Err::<ReadySolution, FeasibilityError>(FeasibilityError::NposElectionError(
            crate::types::ElectionError::CompactStakeOverflow,
        )) <==> spec_unique_targets(solution.compact).len() == s.desired_targets
            && targets_valid(solution.compact, s.targets@.len() as int)
            && voters_valid(solution.compact, s.voters@.len() as int)
            && !shares_valid(solution.compact),
        r == Err::<ReadySolution, FeasibilityError>(FeasibilityError::InvalidVote)
            <==> spec_unique_targets(solution.compact).len() == s.desired_targets
                && targets_valid(solution.compact, s.targets@.len() as int)
                && voters_valid(solution.compact, s.voters@.len() as int)
                && shares_valid(solution.compact)
                && !(votes_nominated(solution.compact, *s) && votes_validated(
                    solution.compact, *s, *validator)),
        r == Err::<ReadySolution, FeasibilityError>(FeasibilityError::InvalidScore)
            <==> spec_unique_targets(solution.compact).len() == s.desired_targets
                && targets_valid(solution.compact, s.targets@.len() as int)
                && voters_valid(solution.compact, s.voters@.len() as int)
                && shares_valid(solution.compact)
                && votes_nominated(solution.compact, *s)
                && votes_validated(solution.compact, *s, *validator)
                && spec_score(solution.compact, *s) != solution.score,
{
    let c = &solution.compact;
    let winners_idx = c.unique_targets();
    proof {
        lemma_unique_targets_agree(*c, winners_idx@);
    }
    if winners_idx.len() != s.desired_targets as usize {
        return Err(FeasibilityError::WrongWinnerCount);
    }
    let mut i: usize = 0;
    while i < winners_idx.len()
        invariant
            winners_idx@ == spec_unique_targets(*c),
            winners_idx@.len() == s.desired_targets,
            c == solution.compact,
            forall|t: u16| winners_idx@.contains(t) <==> c.references_target(t),
            i <= winners_idx@.len(),
            forall|a: int| 0 <= a < i ==> (#[trigger] winners_idx@[a]) < s.targets@.len(),
        decreases winners_idx@.len() - i,
    {
        let idx = winners_idx[i];
        if idx as usize >= s.targets.len() {
            proof {
                assert(c.references_target(idx));
                let (k, j) = choose|k: int, j: int|
                    0 <= k < c.buckets@.len() && 0 <= j < c.buckets@[k]@.len()
                        && crate::compact::row_references(#[trigger] c.buckets@[k]@[j], idx);
                assert(!row_targets_valid(c.buckets@[k]@[j], s.targets@.len() as int));
                assert(!targets_valid(*c, s.targets@.len() as int));
            }
            return Err(FeasibilityError::InvalidWinner);
        }
        i = i + 1;
    }
    proof {
        lemma_targets_valid_from_winners(*c, winners_idx@, *s);
    }
    if !check_voters_valid(c, s.voters.len()) {
        return Err(FeasibilityError::InvalidVoter);
    }
    if !check_shares_valid(c) {
        return Err(FeasibilityError::NposElectionError(
            crate::types::ElectionError::CompactStakeOverflow,
        ));
    }
    if !check_votes_nominated(c, s) {
        return Err(FeasibilityError::InvalidVote);
    }
    if !check_votes_validated(c, s, validator) {
        return Err(FeasibilityError::InvalidVote);
    }
    let (supports, known) = compute_supports_and_score(c, s);
    if !(known.sum_stake == solution.score.sum_stake
        && known.min_support == solution.score.min_support
        && known.sum_squared == solution.score.sum_squared) {
        return Err(FeasibilityError::InvalidScore);
    }
    Ok(ReadySolution { supports, score: solution.score, compute })
}

} // verus!
