//! The automatic (unsigned) path: weight-bounded trimming of a mined
//! solution, the search for the largest solution size that fits the
//! weight budget, the local dedup window, and the pre-submission checks.

use vstd::prelude::*;
use crate::compact::{CompactRow, CompactSolution, SHARE_UNIT};
use crate::feasibility::Snapshot;
use crate::score::{is_score_better, score_better_by, THRESHOLD_ACCURACY};
use crate::types::{Error, PalletError, Phase, RawSolution, ReadySolution, WitnessData};

verus! {

/// The tick window within which a node will not mine twice.
pub const OFFCHAIN_REPEAT: u64 = 5;

/// The dedup guard of the miner: given the persisted last-run marker and
/// the current tick, decides whether mining may run now.
///
/// Mining is refused on a tick before the marker (a fork or reorg), and
/// within the repeat window after it; otherwise it may run, and the
/// returned tick becomes the new marker.
pub fn offchain_window_check(last_head: Option<u64>, now: u64) -> (r: Result<u64, ()>)
    ensures
        r == (match last_head {
            Some(head) => {
                if now < head {
                    Err::<u64, ()>(())
                } else if now <= head + OFFCHAIN_REPEAT {
                    Err::<u64, ()>(())
                } else {
                    Ok::<u64, ()>(now)
                }
            },
            None => Ok::<u64, ()>(now),
        }),
{
    match last_head {
        Some(head) => {
            if now < head {
                Err(())
            } else if head <= u64::MAX - OFFCHAIN_REPEAT && now <= head + OFFCHAIN_REPEAT {
                Err(())
            } else if head > u64::MAX - OFFCHAIN_REPEAT {
                Err(())
            } else {
                Ok(now)
            }
        },
        None => Ok(now),
    }
}

/// The number of balancing rounds to run, drawn from a random seed word
/// and capped by the configured maximum.
pub fn balancing_iterations(seed: u32, max_iterations: u32) -> (r: u32)
    ensures
        max_iterations == 0 ==> r == 0,
        max_iterations > 0 ==> r == seed as int % (max_iterations + 1),
        r <= max_iterations,
{
    match max_iterations {
        0 => 0,
        max => {
            if max == u32::MAX {
                proof {
                    vstd::arithmetic::div_mod::lemma_small_mod(seed as nat,
                        (max_iterations + 1) as nat);
                }
                seed
            } else {
                seed % (max + 1)
            }
        },
    }
}

/// The pool priority of an automatic submission: a configured base
/// raised by the claimed total stake, so that stronger solutions
/// propagate first.
pub fn unsigned_priority(base_priority: u64, score: crate::types::ElectionScore) -> (p: u64)
    ensures
        p == vstd::math::min(
            base_priority + crate::signed::sat_u64(score.sum_stake),
            u64::MAX as int,
        ),
{
    let stake: u64 = if score.sum_stake <= u64::MAX as u128 {
        score.sum_stake as u64
    } else {
        u64::MAX
    };
    if base_priority <= u64::MAX - stake {
        base_priority + stake
    } else {
        u64::MAX
    }
}

/// A linear weight model: what one submission costs, as a function of the
/// number of voters it keeps.
pub struct WeightModel {
    /// The fixed cost of a submission.
    pub base: u64,
    /// The additional cost of each kept voter.
    pub per_voter: u64,
}

impl WeightModel {
    /// The cost of a submission keeping `voters` voters.
    pub open spec fn weight_of(self, voters: int) -> int {
        vstd::math::min(self.base + self.per_voter * voters, u64::MAX as int)
    }
}

/// The weight model never charges less for fewer voters.
pub proof fn lemma_weight_monotone(model: WeightModel, a: int, b: int)
    requires
        0 <= a <= b,
    ensures
        model.weight_of(a) <= model.weight_of(b),
{
    assert(model.per_voter * a <= model.per_voter * b) by (nonlinear_arith)
        requires model.per_voter >= 0, 0 <= a <= b,
    {}
}

/// The cost of a submission keeping `voters` voters, saturating.
fn weight_with(model: &WeightModel, voters: u32) -> (w: u64)
    ensures
        w == model.weight_of(voters as int),
{
    proof {
        assert(model.per_voter * voters <= u64::MAX * (u32::MAX as int)) by (nonlinear_arith)
            requires model.per_voter <= u64::MAX, voters <= u32::MAX, model.per_voter >= 0,
                voters >= 0,
        {}
    }
    let wide: u128 = model.per_voter as u128 * voters as u128;
    let scaled: u64 = if wide <= u64::MAX as u128 {
        wide as u64
    } else {
        u64::MAX
    };
    if model.base <= u64::MAX - scaled {
        model.base + scaled
    } else {
        u64::MAX
    }
}

/// Finds the largest number of voters a submission may keep and still fit
/// the weight budget: a step-halving search from half the voter count,
/// corrected by one linear step at the end.
///
/// The answer fits the budget, never exceeds the witnessed voter count,
/// and is maximal for the search: keeping one more voter would reach the
/// budget, unless the whole voter count already fits.
pub fn maximum_compact_len(model: &WeightModel, witness: WitnessData, max_weight: u64) -> (r: u32)
    requires
        model.weight_of(0) <= max_weight,
    ensures
        r <= witness.voters,
        model.weight_of(r as int) <= max_weight,
        r == witness.voters || model.weight_of(r + 1) >= max_weight,
{
    if witness.voters < 1 {
        return witness.voters;
    }
    let max_voters: u32 = witness.voters;
    let mut voters: u32 = max_voters;
    let mut step: u32 = voters / 2;
    while step > 0
        invariant
            voters <= max_voters,
            max_voters == witness.voters,
            model.weight_of(0) <= max_weight,
        decreases step,
    {
        let current_weight = weight_with(model, voters);
        let next: Option<u32> = if current_weight < max_weight {
            if voters <= u32::MAX - step && voters + step < max_voters {
                Some(voters + step)
            } else {
                None
            }
        } else if current_weight > max_weight {
            if voters >= step {
                Some(voters - step)
            } else {
                None
            }
        } else {
            Some(voters)
        };
        match next {
            Some(n) => {
                if n == voters {
                    proof {
                        lemma_weight_monotone(*model, n as int, n + 1);
                    }
                    return n;
                }
                voters = n;
            },
            None => {
                break;
            },
        }
        step = step / 2;
    }
    loop
        invariant_except_break
            voters <= max_voters,
            max_voters == witness.voters,
            model.weight_of(0) <= max_weight,
        ensures
            voters <= max_voters,
            max_voters == witness.voters,
            model.weight_of(0) <= max_weight,
            voters == max_voters || model.weight_of(voters + 1) >= max_weight,
        decreases max_voters - voters,
    {
        if voters >= max_voters {
            break;
        }
        let above = weight_with(model, voters + 1);
        if above >= max_weight {
            break;
        }
        voters = voters + 1;
    }
    loop
        invariant_except_break
            voters <= max_voters,
            max_voters == witness.voters,
            model.weight_of(0) <= max_weight,
            voters == max_voters || model.weight_of(voters + 1) >= max_weight,
        ensures
            voters <= max_voters,
            voters == max_voters || model.weight_of(voters + 1) >= max_weight,
            model.weight_of(voters as int) <= max_weight,
        decreases voters,
    {
        if voters == 0 {
            break;
        }
        let here = weight_with(model, voters);
        if here <= max_weight {
            break;
        }
        voters = voters - 1;
    }
    voters
}

/// Every listed pair names a voter of the snapshot with its stake.
pub open spec fn drawn_from(r: Seq<(u64, u64)>, voters: Seq<(u64, u64, Vec<u64>)>) -> bool {
    forall|i: int| 0 <= i < r.len() ==> exists|j: int|
        0 <= j < voters.len() && (#[trigger] r[i]).0 == voters[j].0 && r[i].1 == voters[j].1
}

/// Sorts the snapshot's voters ascending by stake, keeping ties in their
/// original order, and returns them as `(account, stake)` pairs.
fn voters_by_stake(snapshot: &Snapshot) -> (r: Vec<(u64, u64)>)
    ensures
        r@.len() == snapshot.voters@.len(),
        forall|i: int| 0 <= i && i + 1 < r@.len() ==> (#[trigger] r@[i]).1 <= r@[i + 1].1,
        drawn_from(r@, snapshot.voters@),
{
    let mut out: Vec<(u64, u64)> = Vec::new();
    let mut i: usize = 0;
    while i < snapshot.voters.len()
        invariant
            i <= snapshot.voters@.len(),
            out@.len() == i,
            forall|a: int| 0 <= a && a + 1 < out@.len() ==> (#[trigger] out@[a]).1
                <= out@[a + 1].1,
            drawn_from(out@, snapshot.voters@),
        decreases snapshot.voters@.len() - i,
    {
        let entry = &snapshot.voters[i];
        let who = entry.0;
        let stake = entry.1;
        let ghost out0 = out@;
        let mut at: usize = out.len();
        while at > 0
            invariant_except_break
                at <= out0.len(),
                out@ == out0,
                forall|a: int| at <= a < out0.len() ==> stake < (#[trigger] out0[a]).1,
            ensures
                out@ == out0,
                at <= out0.len(),
                forall|a: int| at <= a < out0.len() ==> stake < (#[trigger] out0[a]).1,
                at > 0 ==> out0[at - 1].1 <= stake,
            decreases at,
        {
            if out[at - 1].1 <= stake {
                break;
            }
            at = at - 1;
        }
        out.insert(at, (who, stake));
        proof {
            assert(out@ =~= out0.take(at as int) + seq![(who, stake)] + out0.skip(at as int));
            assert forall|a: int| 0 <= a && a + 1 < out@.len()
                implies (#[trigger] out@[a]).1 <= out@[a + 1].1 by {
                if a + 1 < at {
                    assert(out@[a] == out0[a] && out@[a + 1] == out0[a + 1]);
                } else if a + 1 == at {
                    assert(out@[a] == out0[a] && out@[a + 1] == (who, stake));
                } else if a == at {
                    assert(out@[a] == (who, stake) && out@[a + 1] == out0[a]);
                } else {
                    assert(out@[a] == out0[a - 1] && out@[a + 1] == out0[a]);
                }
            }
            assert forall|a: int| 0 <= a < out@.len() implies exists|j: int|
                0 <= j < snapshot.voters@.len() && (#[trigger] out@[a]).0
                    == snapshot.voters@[j].0 && out@[a].1 == snapshot.voters@[j].1 by {
                assert(drawn_from(out0, snapshot.voters@));
                if a < at {
                    assert(out@[a] == out0[a]);
                } else if a == at {
                    assert(out@[a] == (who, stake));
                    assert(snapshot.voters@[i as int].0 == who
                        && snapshot.voters@[i as int].1 == stake);
                } else {
                    assert(out@[a] == out0[a - 1]);
                }
            }
        }
        i = i + 1;
    }
    out
}

/// Removing one row from one bucket lowers the running length sums by
/// one from that bucket on.
proof fn lemma_len_up_to_remove(c0: CompactSolution, c1: CompactSolution, k: int, m: int)
    requires
        c1.buckets@.len() == c0.buckets@.len(),
        0 <= k < c0.buckets@.len(),
        c1.buckets@[k]@.len() == c0.buckets@[k]@.len() - 1,
        forall|kk: int|
            0 <= kk < c0.buckets@.len() && kk != k ==> (#[trigger] c1.buckets@[kk]@).len()
                == c0.buckets@[kk]@.len(),
        0 <= m <= c0.buckets@.len(),
    ensures
        c1.len_up_to(m) == c0.len_up_to(m) - (if k < m {
            1int
        } else {
            0int
        }),
    decreases m,
{
    if m > 0 {
        lemma_len_up_to_remove(c0, c1, k, m - 1);
    }
}

/// Every row of one solution also stands, unchanged, in the same bucket
/// of another: nothing was added or altered, only rows dropped.
pub open spec fn row_kept(c2: CompactSolution, c0: CompactSolution, k: int, j: int) -> bool {
    c0.buckets@[k]@.contains(c2.buckets@[k]@[j])
}

pub open spec fn rows_retained(c2: CompactSolution, c0: CompactSolution) -> bool {
    &&& c2.buckets@.len() == c0.buckets@.len()
    &&& forall|k: int, j: int|
        0 <= k < c2.buckets@.len() && 0 <= j < c2.buckets@[k]@.len() ==> #[trigger] row_kept(
            c2,
            c0,
            k,
            j,
        )
}

/// Dropping rows composes: what survives two prunings survives the whole.
proof fn lemma_rows_retained_trans(c2: CompactSolution, c1: CompactSolution, c0: CompactSolution)
    requires
        rows_retained(c2, c1),
        rows_retained(c1, c0),
    ensures
        rows_retained(c2, c0),
{
    assert forall|k: int, j: int|
        0 <= k < c2.buckets@.len() && 0 <= j < c2.buckets@[k]@.len()
        implies #[trigger] row_kept(c2, c0, k, j) by {
        assert(row_kept(c2, c1, k, j));
        let j1 = choose|j1: int|
            0 <= j1 < c1.buckets@[k]@.len() && c1.buckets@[k]@[j1] == c2.buckets@[k]@[j];
        assert(row_kept(c1, c0, k, j1));
        let j0 = choose|j0: int|
            0 <= j0 < c0.buckets@[k]@.len() && c0.buckets@[k]@[j0] == c1.buckets@[k]@[j1];
        assert(c0.buckets@[k]@[j0] == c2.buckets@[k]@[j]);
    }
}

/// Nothing keeps everything.
proof fn lemma_rows_retained_refl(c: CompactSolution)
    ensures
        rows_retained(c, c),
{
    assert forall|k: int, j: int|
        0 <= k < c.buckets@.len() && 0 <= j < c.buckets@[k]@.len()
        implies #[trigger] row_kept(c, c, k, j) by {
        assert(c.buckets@[k]@.contains(c.buckets@[k]@[j]));
    }
}

/// Trims a solution to the allowed number of voters by removing the
/// globally lowest-stake voters first, ties in snapshot order, until the
/// length fits. The trim fails, handing nothing back, if the snapshot
/// cannot name enough removable voters.
///
/// A solution that already fits is returned untouched, and a successful
/// trim of an over-long solution keeps exactly the allowed number of
/// voters; every surviving row is a row of the input, unchanged.
pub fn trim_compact(
    maximum_allowed_voters: u32,
    compact: CompactSolution,
    snapshot: &Snapshot,
) -> (r: Result<CompactSolution, Error>)
    requires
        compact.wf(),
        compact.spec_len() <= usize::MAX,
        snapshot.voters@.len() <= u32::MAX,
    ensures
        compact.spec_len() <= maximum_allowed_voters ==> r == Ok::<CompactSolution, Error>(
            compact,
        ),
        r matches Ok(c2) ==> {
            &&& c2.wf()
            &&& c2.spec_len() <= maximum_allowed_voters
            &&& (compact.spec_len() > maximum_allowed_voters ==> c2.spec_len()
                == maximum_allowed_voters)
            &&& rows_retained(c2, compact)
        },
{
    let mut trimmed = compact;
    let initial_len = trimmed.len();
    if initial_len <= maximum_allowed_voters as usize {
        proof {
            lemma_rows_retained_refl(compact);
        }
        return Ok(trimmed);
    }
    let to_remove = initial_len - maximum_allowed_voters as usize;
    let sorted = voters_by_stake(snapshot);
    let ghost total0 = trimmed.spec_len();
    let mut removed: usize = 0;
    let mut i: usize = 0;
    let mut fits = false;
    proof {
        lemma_rows_retained_refl(compact);
    }
    while i < sorted.len()
        invariant_except_break
            trimmed.wf(),
            snapshot.voters@.len() <= u32::MAX,
            i <= sorted@.len(),
            removed < to_remove,
            to_remove <= total0,
            total0 - to_remove == maximum_allowed_voters,
            total0 == compact.spec_len(),
            trimmed.spec_len() == total0 - removed,
            rows_retained(trimmed, compact),
            !fits,
        ensures
            trimmed.wf(),
            rows_retained(trimmed, compact),
            fits ==> trimmed.spec_len() == maximum_allowed_voters,
        decreases sorted@.len() - i,
    {
        let who = sorted[i].0;
        let index = match find_voter_index(snapshot, who) {
            Some(idx) => idx,
            None => {
                return Err(Error::SnapshotUnAvailable);
            },
        };
        let ghost c0 = trimmed;
        if trimmed.remove_voter(index) {
            proof {
                let (k, j) = choose|k: int, j: int|
                    {
                        &&& 0 <= k < c0.buckets@.len()
                        &&& 0 <= j < c0.buckets@[k]@.len()
                        &&& (#[trigger] c0.buckets@[k]@[j]).voter == index
                        &&& forall|kk: int, jj: int|
                            0 <= kk < c0.buckets@.len() && 0 <= jj < c0.buckets@[kk]@.len()
                                && (kk < k || (kk == k && jj < j))
                                ==> (#[trigger] c0.buckets@[kk]@[jj]).voter != index
                        &&& trimmed.buckets@.len() == c0.buckets@.len()
                        &&& trimmed.buckets@[k]@ == c0.buckets@[k]@.remove(j)
                        &&& forall|kk: int|
                            0 <= kk < c0.buckets@.len() && kk != k
                                ==> (#[trigger] trimmed.buckets@[kk]) == c0.buckets@[kk]
                    };
                assert forall|kk: int|
                    0 <= kk < c0.buckets@.len() && kk != k
                    implies (#[trigger] trimmed.buckets@[kk]@).len()
                        == c0.buckets@[kk]@.len() by {
                    assert(trimmed.buckets@[kk] == c0.buckets@[kk]);
                }
                lemma_len_up_to_remove(c0, trimmed, k, c0.buckets@.len() as int);
                assert(rows_retained(trimmed, c0)) by {
                    assert forall|kk: int, jj: int|
                        0 <= kk < trimmed.buckets@.len() && 0 <= jj
                            < trimmed.buckets@[kk]@.len()
                        implies #[trigger] row_kept(trimmed, c0, kk, jj) by {
                        if kk == k {
                            if jj < j {
                                assert(trimmed.buckets@[kk]@[jj]
                                    == (c0.buckets@[kk]@[jj]));
                            } else {
                                assert(trimmed.buckets@[kk]@[jj]
                                    == (c0.buckets@[kk]@[jj + 1]));
                            }
                            assert(c0.buckets@[kk]@.contains(trimmed.buckets@[kk]@[jj]));
                        } else {
                            assert(trimmed.buckets@[kk] == c0.buckets@[kk]);
                            assert(c0.buckets@[kk]@.contains(trimmed.buckets@[kk]@[jj]));
                        }
                    }
                }
                lemma_rows_retained_trans(trimmed, c0, compact);
            }
            removed = removed + 1;
        }
        if removed >= to_remove {
            fits = true;
            break;
        }
        i = i + 1;
    }
    if fits {
        Ok(trimmed)
    } else {
        Err(Error::SnapshotUnAvailable)
    }
}

/// The first position of `who` among the snapshot's voters, or `-1`.
pub open spec fn voter_pos(voters: Seq<(u64, u64, Vec<u64>)>, who: u64) -> int
    decreases voters.len(),
{
    if voters.len() == 0 {
        -1
    } else if voters[0].0 == who {
        0
    } else {
        let r = voter_pos(voters.drop_first(), who);
        if r < 0 {
            -1
        } else {
            r + 1
        }
    }
}

/// What the voter position finds and where it points.
pub proof fn lemma_voter_pos_props(voters: Seq<(u64, u64, Vec<u64>)>, who: u64)
    ensures
        -1 <= voter_pos(voters, who) < voters.len(),
        voter_pos(voters, who) >= 0 ==> voters[voter_pos(voters, who)].0 == who,
        voter_pos(voters, who) == -1 ==> forall|j: int|
            0 <= j < voters.len() ==> (#[trigger] voters[j]).0 != who,
        voter_pos(voters, who) >= 0 ==> forall|j: int|
            0 <= j < voter_pos(voters, who) ==> (#[trigger] voters[j]).0 != who,
    decreases voters.len(),
{
    if voters.len() > 0 && voters[0].0 != who {
        lemma_voter_pos_props(voters.drop_first(), who);
        let d = voters.drop_first();
        if voter_pos(voters, who) == -1 {
            assert forall|j: int| 0 <= j < voters.len()
                implies (#[trigger] voters[j]).0 != who by {
                if j > 0 {
                    assert(d[j - 1] == voters[j]);
                }
            }
        } else {
            assert forall|j: int| 0 <= j < voter_pos(voters, who)
                implies (#[trigger] voters[j]).0 != who by {
                if j > 0 {
                    assert(d[j - 1] == voters[j]);
                }
            }
        }
    }
}

/// The first position of a voter account in the snapshot's voter list.
fn find_voter_index(snapshot: &Snapshot, who: u64) -> (r: Option<u32>)
    requires
        snapshot.voters@.len() <= u32::MAX,
    ensures
        r == (if voter_pos(snapshot.voters@, who) >= 0 {
            Some(voter_pos(snapshot.voters@, who) as u32)
        } else {
            None::<u32>
        }),
        r matches Some(idx) ==> idx < snapshot.voters@.len()
            && snapshot.voters@[idx as int].0 == who,
{
    let mut i: usize = 0;
    while i < snapshot.voters.len()
        invariant
            snapshot.voters@.len() <= u32::MAX,
            i <= snapshot.voters@.len(),
            forall|j: int| 0 <= j < i ==> (#[trigger] snapshot.voters@[j]).0 != who,
        decreases snapshot.voters@.len() - i,
    {
        if snapshot.voters[i].0 == who {
            proof {
                lemma_voter_pos_props(snapshot.voters@, who);
                let p = voter_pos(snapshot.voters@, who);
                if p != i {
                    if p == -1 || p > i {
                        assert(snapshot.voters@[i as int].0 != who);
                    } else {
                        assert(snapshot.voters@[p].0 != who);
                    }
                }
            }
            return Some(i as u32);
        }
        i = i + 1;
    }
    proof {
        lemma_voter_pos_props(snapshot.voters@, who);
        let p = voter_pos(snapshot.voters@, who);
        if p >= 0 {
            assert(snapshot.voters@[p].0 != who);
        }
    }
    None
}

/// Whether every target index of the solution resolves.
pub fn check_targets_valid(c: &CompactSolution, n_targets: usize) -> (r: bool)
    ensures
        r == crate::feasibility::targets_valid(*c, n_targets as int),
{
    let mut k: usize = 0;
    while k < c.buckets.len()
        invariant
            k <= c.buckets@.len(),
            forall|kk: int, jj: int|
                0 <= kk < k && 0 <= jj < c.buckets@[kk]@.len()
                    ==> crate::feasibility::row_targets_valid(
                    #[trigger] c.buckets@[kk]@[jj],
                    n_targets as int,
                ),
        decreases c.buckets@.len() - k,
    {
        let bucket = &c.buckets[k];
        let mut j: usize = 0;
        while j < bucket.len()
            invariant
                k < c.buckets@.len(),
                bucket == c.buckets@[k as int],
                j <= bucket@.len(),
                forall|kk: int, jj: int|
                    0 <= kk < k && 0 <= jj < c.buckets@[kk]@.len()
                        ==> crate::feasibility::row_targets_valid(
                        #[trigger] c.buckets@[kk]@[jj],
                        n_targets as int,
                    ),
                forall|jj: int|
                    0 <= jj < j ==> crate::feasibility::row_targets_valid(
                        #[trigger] c.buckets@[k as int]@[jj],
                        n_targets as int,
                    ),
            decreases bucket@.len() - j,
        {
            if !crate::feasibility::check_row_targets(&bucket[j], n_targets) {
                return false;
            }
            j = j + 1;
        }
        k = k + 1;
    }
    true
}

/// The first position of `who` in the target list, as a target index, or
/// nothing when the account is absent or its position does not fit the
/// index type.
fn find_target_index(snapshot: &Snapshot, who: u64) -> (r: Option<u16>)
    ensures
        r == (if 0 <= crate::feasibility::winner_pos(snapshot.targets@, who) <= 65535 {
            Some(crate::feasibility::winner_pos(snapshot.targets@, who) as u16)
        } else {
            None::<u16>
        }),
        r matches Some(idx) ==> idx < snapshot.targets@.len()
            && snapshot.targets@[idx as int] == who,
{
    let ghost p = crate::feasibility::winner_pos(snapshot.targets@, who);
    proof {
        crate::feasibility::lemma_winner_pos_props(snapshot.targets@, who);
    }
    let mut i: usize = 0;
    while i < snapshot.targets.len()
        invariant
            p == crate::feasibility::winner_pos(snapshot.targets@, who),
            -1 <= p < snapshot.targets@.len(),
            p >= 0 ==> snapshot.targets@[p] == who,
            p >= 0 ==> forall|j: int| 0 <= j < p ==> snapshot.targets@[j] != who,
            p == -1 ==> forall|j: int| 0 <= j < snapshot.targets@.len()
                ==> snapshot.targets@[j] != who,
            i <= snapshot.targets@.len(),
            forall|j: int| 0 <= j < i ==> snapshot.targets@[j] != who,
        decreases snapshot.targets@.len() - i,
    {
        if snapshot.targets[i] == who {
            proof {
                if p != i {
                    if p == -1 || p > i {
                        assert(snapshot.targets@[i as int] != who);
                    } else {
                        assert(snapshot.targets@[p] != who);
                    }
                }
            }
            if i <= 65535 {
                return Some(i as u16);
            } else {
                return None;
            }
        }
        i = i + 1;
    }
    proof {
        if p >= 0 {
            assert(snapshot.targets@[p] != who);
        }
    }
    None
}

/// The compact row that one assignment entry converts to: the first
/// positions of its accounts, with the final share left implicit.
pub open spec fn entry_row(a: (u64, Vec<(u64, u16)>), s: Snapshot) -> (u32, Seq<(u16, u16)>, u16) {
    (
        voter_pos(s.voters@, a.0) as u32,
        Seq::new(
            (a.1@.len() - 1) as nat,
            |e: int|
                (
                    crate::feasibility::winner_pos(s.targets@, a.1@[e].0) as u16,
                    a.1@[e].1,
                ),
        ),
        crate::feasibility::winner_pos(s.targets@, a.1@[a.1@.len() - 1].0) as u16,
    )
}

/// One entry can be converted: it is empty, or narrow enough with the
/// voter present in the snapshot and every target account resolvable to
/// an index.
pub open spec fn entry_convertible(a: (u64, Vec<(u64, u16)>), s: Snapshot) -> bool {
    a.1@.len() == 0 || {
        &&& a.1@.len() <= crate::compact::MAX_FANOUT
        &&& voter_pos(s.voters@, a.0) >= 0
        &&& forall|e: int|
            0 <= e < a.1@.len() ==> 0 <= crate::feasibility::winner_pos(s.targets@,
                (#[trigger] a.1@[e]).0) <= 65535
    }
}

/// Every entry of the assignment set can be converted.
pub open spec fn convertible(assignments: Seq<(u64, Vec<(u64, u16)>)>, s: Snapshot) -> bool {
    forall|i: int|
        0 <= i < assignments.len() ==> entry_convertible(#[trigger] assignments[i], s)
}

/// The converted rows of one arity, in input order.
pub open spec fn rows_for_arity(
    assignments: Seq<(u64, Vec<(u64, u16)>)>,
    s: Snapshot,
    k: int,
) -> Seq<(u32, Seq<(u16, u16)>, u16)>
    decreases assignments.len(),
{
    if assignments.len() == 0 {
        Seq::empty()
    } else {
        rows_for_arity(assignments.drop_last(), s, k) + (if assignments.last().1@.len() == k
            + 1 {
            seq![entry_row(assignments.last(), s)]
        } else {
            Seq::empty()
        })
    }
}

/// A bucket holds exactly these row models, in order.
pub open spec fn bucket_matches(
    rows: Seq<CompactRow>,
    models: Seq<(u32, Seq<(u16, u16)>, u16)>,
) -> bool {
    &&& rows.len() == models.len()
    &&& forall|j: int|
        0 <= j < rows.len() ==> crate::codec::row_model(#[trigger] rows[j]) == models[j]
}

/// Converts one assignment entry: nothing for an empty distribution, the
/// converted row otherwise, and an error exactly when the entry cannot
/// be converted.
fn convert_entry(entry: &(u64, Vec<(u64, u16)>), snapshot: &Snapshot) -> (r: Result<
    Option<CompactRow>,
    Error,
>)
    requires
        snapshot.voters@.len() <= u32::MAX,
    ensures
        r is Err <==> !entry_convertible(*entry, *snapshot),
        r == Ok::<Option<CompactRow>, Error>(None) <==> entry.1@.len() == 0,
        r matches Ok(Some(row)) ==> {
            &&& crate::codec::row_model(row) == entry_row(*entry, *snapshot)
            &&& row.edges@.len() == entry.1@.len() - 1
            &&& row.edges@.len() < crate::compact::MAX_FANOUT
            &&& crate::feasibility::row_voter_valid(row, snapshot.voters@.len() as int)
            &&& crate::feasibility::row_targets_valid(row, snapshot.targets@.len() as int)
        },
{
    let who = entry.0;
    let distribution = &entry.1;
    let n = distribution.len();
    if n == 0 {
        return Ok(None);
    }
    if n > crate::compact::MAX_FANOUT {
        return Err(Error::NposElections(crate::types::ElectionError::TooManyTargets));
    }
    let voter = match find_voter_index(snapshot, who) {
        Some(v) => v,
        None => {
            return Err(Error::NposElections(crate::types::ElectionError::InvalidIndex));
        },
    };
    let mut edges: Vec<(u16, u16)> = Vec::new();
    let mut e: usize = 0;
    while e < n - 1
        invariant
            snapshot.voters@.len() <= u32::MAX,
            1 <= n <= crate::compact::MAX_FANOUT,
            e <= n - 1,
            n == distribution@.len(),
            distribution == entry.1,
            edges@.len() == e,
            forall|a: int|
                0 <= a < e ==> 0 <= crate::feasibility::winner_pos(snapshot.targets@,
                    (#[trigger] distribution@[a]).0) <= 65535,
            forall|a: int|
                0 <= a < e ==> (#[trigger] edges@[a]) == (
                    crate::feasibility::winner_pos(snapshot.targets@,
                        distribution@[a].0) as u16,
                    distribution@[a].1,
                ),
            forall|a: int|
                0 <= a < e ==> (#[trigger] edges@[a]).0 < snapshot.targets@.len(),
        decreases n - 1 - e,
    {
        let (acct, share) = distribution[e];
        let t = match find_target_index(snapshot, acct) {
            Some(t) => t,
            None => {
                return Err(Error::NposElections(crate::types::ElectionError::InvalidIndex));
            },
        };
        edges.push((t, share));
        e = e + 1;
    }
    let (last_acct, _) = distribution[n - 1];
    let last_target = match find_target_index(snapshot, last_acct) {
        Some(t) => t,
        None => {
            return Err(Error::NposElections(crate::types::ElectionError::InvalidIndex));
        },
    };
    let row = CompactRow { voter, edges, last_target };
    proof {
        assert(entry_convertible(*entry, *snapshot)) by {
            assert forall|a: int| 0 <= a < distribution@.len()
                implies 0 <= crate::feasibility::winner_pos(snapshot.targets@,
                    (#[trigger] distribution@[a]).0) <= 65535 by {
                if a < n - 1 {
                    assert(0 <= crate::feasibility::winner_pos(snapshot.targets@,
                        distribution@[a].0) <= 65535);
                }
            }
        }
        assert(crate::codec::row_model(row) == entry_row(*entry, *snapshot)) by {
            assert(row.edges@ =~= entry_row(*entry, *snapshot).1);
        }
    }
    Ok(Some(row))
}

/// Converts an account-based assignment set into the compact form: each
/// voter's accounts become snapshot indexes, the distribution lands in
/// the bucket of its fan-out, and the final share is left implicit.
///
/// An empty distribution converts to nothing. The conversion succeeds
/// exactly when every entry can be converted, and then each bucket holds
/// precisely the converted rows of its arity, in input order.
pub fn from_assignment(
    assignments: &Vec<(u64, Vec<(u64, u16)>)>,
    snapshot: &Snapshot,
) -> (r: Result<CompactSolution, Error>)
    requires
        snapshot.voters@.len() <= u32::MAX,
        assignments@.len() <= u32::MAX,
    ensures
        r is Ok <==> convertible(assignments@, *snapshot),
        r matches Ok(c) ==> {
            &&& c.wf()
            &&& c.spec_len() <= assignments@.len()
            &&& crate::codec::encodable_model(crate::codec::solution_model(c))
            &&& crate::feasibility::voters_valid(c, snapshot.voters@.len() as int)
            &&& crate::feasibility::targets_valid(c, snapshot.targets@.len() as int)
            &&& forall|k: int|
                0 <= k < c.buckets@.len() ==> bucket_matches(
                    (#[trigger] c.buckets@[k])@,
                    rows_for_arity(assignments@, *snapshot, k),
                )
        },
{
    let mut compact = CompactSolution::empty();
    let mut i: usize = 0;
    proof {
        assert forall|k: int| 0 <= k < compact.buckets@.len()
            implies bucket_matches((#[trigger] compact.buckets@[k])@,
                rows_for_arity(assignments@.take(0), *snapshot, k)) by {
            assert(assignments@.take(0) =~= Seq::<(u64, Vec<(u64, u16)>)>::empty());
        }
    }
    while i < assignments.len()
        invariant
            snapshot.voters@.len() <= u32::MAX,
            compact.wf(),
            i <= assignments@.len(),
            forall|k: int| 0 <= k < compact.buckets@.len()
                ==> (#[trigger] compact.buckets@[k]@).len() <= i,
            compact.spec_len() <= i,
            forall|k: int, j: int|
                0 <= k < compact.buckets@.len() && 0 <= j < compact.buckets@[k]@.len()
                    ==> crate::feasibility::row_voter_valid(
                    #[trigger] compact.buckets@[k]@[j],
                    snapshot.voters@.len() as int,
                ) && crate::feasibility::row_targets_valid(
                    compact.buckets@[k]@[j],
                    snapshot.targets@.len() as int,
                ),
            forall|i0: int|
                0 <= i0 < i ==> entry_convertible(#[trigger] assignments@[i0], *snapshot),
            forall|k: int|
                0 <= k < compact.buckets@.len() ==> bucket_matches(
                    (#[trigger] compact.buckets@[k])@,
                    rows_for_arity(assignments@.take(i as int), *snapshot, k),
                ),
        decreases assignments@.len() - i,
    {
        let outcome = convert_entry(&assignments[i], snapshot);
        proof {
            assert(assignments@.take(i + 1).drop_last() =~= assignments@.take(i as int));
            assert(assignments@.take(i + 1).last() == assignments@[i as int]);
        }
        match outcome {
            Err(e) => {
                return Err(e);
            },
            Ok(None) => {
                proof {
                    assert forall|k: int| 0 <= k < compact.buckets@.len()
                        implies bucket_matches((#[trigger] compact.buckets@[k])@,
                            rows_for_arity(assignments@.take(i + 1), *snapshot, k)) by {
                        assert(rows_for_arity(assignments@.take(i + 1), *snapshot, k)
                            =~= rows_for_arity(assignments@.take(i as int), *snapshot, k));
                    }
                }
                i = i + 1;
            },
            Ok(Some(row)) => {
                let b = row.edges.len();
                let ghost c0 = compact;
                let ghost arow = assignments@[i as int];
                let bucket = &mut compact.buckets[b];
                bucket.push(row);
                proof {
                    assert(compact.buckets@ =~= c0.buckets@.update(b as int,
                        compact.buckets@[b as int]));
                    assert forall|kk: int|
                        0 <= kk < c0.buckets@.len() && kk != b
                        implies (#[trigger] c0.buckets@[kk]@).len()
                            == compact.buckets@[kk]@.len() by {
                        assert(compact.buckets@[kk] == c0.buckets@[kk]);
                    }
                    lemma_len_up_to_remove(compact, c0, b as int, compact.buckets@.len() as int);
                    assert forall|k: int, j: int|
                        0 <= k < compact.buckets@.len() && 0 <= j
                            < compact.buckets@[k]@.len()
                        implies (#[trigger] compact.buckets@[k]@[j]).edges@.len() == k
                            && crate::feasibility::row_voter_valid(compact.buckets@[k]@[j],
                                snapshot.voters@.len() as int)
                            && crate::feasibility::row_targets_valid(
                                compact.buckets@[k]@[j],
                                snapshot.targets@.len() as int,
                            ) by {
                        if k == b && j == compact.buckets@[k]@.len() - 1 {
                            assert(compact.buckets@[k]@[j] == row);
                        } else {
                            assert(compact.buckets@[k]@[j] == c0.buckets@[k]@[j]);
                        }
                    }
                    assert forall|k: int| 0 <= k < compact.buckets@.len()
                        implies bucket_matches((#[trigger] compact.buckets@[k])@,
                            rows_for_arity(assignments@.take(i + 1), *snapshot, k)) by {
                        if k == b {
                            assert(arow.1@.len() == k + 1);
                            assert(rows_for_arity(assignments@.take(i + 1), *snapshot, k)
                                =~= rows_for_arity(assignments@.take(i as int), *snapshot,
                                    k).push(entry_row(arow, *snapshot)));
                            assert(compact.buckets@[k]@
                                =~= c0.buckets@[k]@.push(row));
                            assert(crate::codec::row_model(row)
                                == entry_row(arow, *snapshot));
                        } else {
                            assert(arow.1@.len() != k + 1);
                            assert(rows_for_arity(assignments@.take(i + 1), *snapshot, k)
                                =~= rows_for_arity(assignments@.take(i as int), *snapshot,
                                    k));
                            assert(compact.buckets@[k] == c0.buckets@[k]);
                        }
                    }
                }
                i = i + 1;
            },
        }
    }
    proof {
        assert(assignments@.take(assignments@.len() as int) =~= assignments@);
        assert forall|k: int| 0 <= k < compact.buckets@.len()
            implies (#[trigger] compact.buckets@[k]@).len() <= u32::MAX by {
            assert(compact.buckets@[k]@.len() <= assignments@.len());
        }
    }
    Ok(compact)
}

/// The account-based reading of one row: the voter's account and its
/// distribution, the final target carrying one whole unit minus the
/// explicit shares.
pub open spec fn row_assignment(row: CompactRow, s: Snapshot) -> (u64, Seq<(u64, u16)>) {
    (
        s.voters@[row.voter as int].0,
        Seq::new(
            row.edges@.len(),
            |i: int| (s.targets@[row.edges@[i].0 as int], row.edges@[i].1),
        ) + seq![
            (
                s.targets@[row.last_target as int],
                (SHARE_UNIT - crate::feasibility::sum_shares(row.edges@)) as u16,
            ),
        ],
    )
}

/// The account-based reading of a run of rows, in order.
pub open spec fn rows_assignments(rows: Seq<CompactRow>, s: Snapshot) -> Seq<(u64, Seq<(u64, u16)>)>
    decreases rows.len(),
{
    if rows.len() == 0 {
        Seq::empty()
    } else {
        rows_assignments(rows.drop_last(), s).push(row_assignment(rows.last(), s))
    }
}

/// The account-based reading of a run of buckets, in increasing arity
/// order.
pub open spec fn buckets_assignments(
    bs: Seq<Vec<CompactRow>>,
    s: Snapshot,
) -> Seq<(u64, Seq<(u64, u16)>)>
    decreases bs.len(),
{
    if bs.len() == 0 {
        Seq::empty()
    } else {
        buckets_assignments(bs.drop_last(), s) + rows_assignments(bs.last()@, s)
    }
}

/// Built assignments mirror their mathematical reading entry by entry.
pub open spec fn assignments_match(
    built: Seq<(u64, Vec<(u64, u16)>)>,
    model: Seq<(u64, Seq<(u64, u16)>)>,
) -> bool {
    &&& built.len() == model.len()
    &&& forall|i: int|
        0 <= i < built.len() ==> (#[trigger] built[i]).0 == model[i].0
            && built[i].1@ == model[i].1
}

/// Converts a compact solution back into account-based assignments,
/// recovering each voter's implicit final share as one whole unit minus
/// its explicit shares. Succeeds exactly when every index resolves and
/// every row leaves room for its final share.
pub fn into_assignment(
    compact: &CompactSolution,
    snapshot: &Snapshot,
) -> (r: Result<Vec<(u64, Vec<(u64, u16)>)>, Error>)
    requires
        compact.wf(),
    ensures
        r is Ok <==> crate::feasibility::targets_valid(*compact, snapshot.targets@.len() as int)
            && crate::feasibility::voters_valid(*compact, snapshot.voters@.len() as int)
            && crate::feasibility::shares_valid(*compact),
        r matches Ok(a) ==> assignments_match(a@,
            buckets_assignments(compact.buckets@, *snapshot)),
{
    let mut out: Vec<(u64, Vec<(u64, u16)>)> = Vec::new();
    let mut k: usize = 0;
    proof {
        assert(buckets_assignments(compact.buckets@.take(0), *snapshot)
            =~= Seq::<(u64, Seq<(u64, u16)>)>::empty());
    }
    while k < compact.buckets.len()
        invariant
            compact.wf(),
            k <= compact.buckets@.len(),
            forall|kk: int, jj: int|
                0 <= kk < k && 0 <= jj < compact.buckets@[kk]@.len() ==> {
                    &&& crate::feasibility::row_targets_valid(
                        #[trigger] compact.buckets@[kk]@[jj],
                        snapshot.targets@.len() as int,
                    )
                    &&& crate::feasibility::row_voter_valid(
                        compact.buckets@[kk]@[jj],
                        snapshot.voters@.len() as int,
                    )
                    &&& crate::feasibility::row_shares_valid(compact.buckets@[kk]@[jj])
                },
            assignments_match(out@,
                buckets_assignments(compact.buckets@.take(k as int), *snapshot)),
        decreases compact.buckets@.len() - k,
    {
        let bucket = &compact.buckets[k];
        let ghost done = buckets_assignments(compact.buckets@.take(k as int), *snapshot);
        let mut j: usize = 0;
        proof {
            assert(rows_assignments(bucket@.take(0), *snapshot)
                =~= Seq::<(u64, Seq<(u64, u16)>)>::empty());
            assert(done + rows_assignments(bucket@.take(0), *snapshot) =~= done);
        }
        while j < bucket.len()
            invariant
                compact.wf(),
                k < compact.buckets@.len(),
                bucket == compact.buckets@[k as int],
                j <= bucket@.len(),
                done == buckets_assignments(compact.buckets@.take(k as int), *snapshot),
                forall|kk: int, jj: int|
                    0 <= kk < k && 0 <= jj < compact.buckets@[kk]@.len() ==> {
                        &&& crate::feasibility::row_targets_valid(
                            #[trigger] compact.buckets@[kk]@[jj],
                            snapshot.targets@.len() as int,
                        )
                        &&& crate::feasibility::row_voter_valid(
                            compact.buckets@[kk]@[jj],
                            snapshot.voters@.len() as int,
                        )
                        &&& crate::feasibility::row_shares_valid(compact.buckets@[kk]@[jj])
                    },
                forall|jj: int|
                    0 <= jj < j ==> {
                        &&& crate::feasibility::row_targets_valid(
                            #[trigger] compact.buckets@[k as int]@[jj],
                            snapshot.targets@.len() as int,
                        )
                        &&& crate::feasibility::row_voter_valid(
                            compact.buckets@[k as int]@[jj],
                            snapshot.voters@.len() as int,
                        )
                        &&& crate::feasibility::row_shares_valid(
                            compact.buckets@[k as int]@[jj],
                        )
                    },
                assignments_match(out@,
                    done + rows_assignments(bucket@.take(j as int), *snapshot)),
            decreases bucket@.len() - j,
        {
            let row = &bucket[j];
            if row.voter as usize >= snapshot.voters.len() {
                proof {
                    assert(!crate::feasibility::row_voter_valid(
                        compact.buckets@[k as int]@[j as int], snapshot.voters@.len() as int));
                }
                return Err(Error::NposElections(crate::types::ElectionError::InvalidIndex));
            }
            let sum = crate::feasibility::sum_row_shares(row);
            if sum >= SHARE_UNIT as u32 {
                proof {
                    assert(!crate::feasibility::row_shares_valid(
                        compact.buckets@[k as int]@[j as int]));
                }
                return Err(Error::NposElections(
                    crate::types::ElectionError::CompactStakeOverflow,
                ));
            }
            let who = snapshot.voters[row.voter as usize].0;
            let mut dist: Vec<(u64, u16)> = Vec::new();
            let mut e: usize = 0;
            while e < row.edges.len()
                invariant
                    row == compact.buckets@[k as int]@[j as int],
                    k < compact.buckets@.len(),
                    j < compact.buckets@[k as int]@.len(),
                    e <= row.edges@.len(),
                    dist@.len() == e,
                    forall|a: int| 0 <= a < e
                        ==> (#[trigger] row.edges@[a]).0 < snapshot.targets@.len(),
                    forall|a: int| 0 <= a < e ==> (#[trigger] dist@[a])
                        == (snapshot.targets@[row.edges@[a].0 as int], row.edges@[a].1),
                decreases row.edges@.len() - e,
            {
                let (t, share) = row.edges[e];
                if t as usize >= snapshot.targets.len() {
                    proof {
                        assert(!crate::feasibility::row_targets_valid(
                            compact.buckets@[k as int]@[j as int],
                            snapshot.targets@.len() as int));
                    }
                    return Err(Error::NposElections(
                        crate::types::ElectionError::InvalidIndex,
                    ));
                }
                dist.push((snapshot.targets[t as usize], share));
                e = e + 1;
            }
            if row.last_target as usize >= snapshot.targets.len() {
                proof {
                    assert(!crate::feasibility::row_targets_valid(
                        compact.buckets@[k as int]@[j as int],
                        snapshot.targets@.len() as int));
                }
                return Err(Error::NposElections(crate::types::ElectionError::InvalidIndex));
            }
            dist.push((snapshot.targets[row.last_target as usize],
                (SHARE_UNIT as u32 - sum) as u16));
            out.push((who, dist));
            proof {
                assert(bucket@.take(j + 1).drop_last() =~= bucket@.take(j as int));
                assert(bucket@.take(j + 1).last() == bucket@[j as int]);
                let rm = row_assignment(bucket@[j as int], *snapshot);
                assert(out@.last().1@ =~= rm.1);
                assert(assignments_match(out@,
                    done + rows_assignments(bucket@.take(j + 1), *snapshot)));
            }
            j = j + 1;
        }
        proof {
            assert(bucket@.take(bucket@.len() as int) =~= bucket@);
            assert(compact.buckets@.take(k + 1).drop_last()
                =~= compact.buckets@.take(k as int));
            assert(compact.buckets@.take(k + 1).last() == compact.buckets@[k as int]);
        }
        k = k + 1;
    }
    proof {
        assert(compact.buckets@.take(compact.buckets@.len() as int) =~= compact.buckets@);
    }
    Ok(out)
}

/// An entry's explicit shares leave room for its implicit final share.
pub open spec fn entry_shares_fit(a: (u64, Vec<(u64, u16)>), s: Snapshot) -> bool {
    a.1@.len() == 0 || crate::feasibility::sum_shares(entry_row(a, s).1) < SHARE_UNIT
}

/// Every converted row of an arity comes from an entry of that arity.
proof fn lemma_rows_for_arity_element(
    assignments: Seq<(u64, Vec<(u64, u16)>)>,
    s: Snapshot,
    k: int,
    j: int,
)
    requires
        0 <= j < rows_for_arity(assignments, s, k).len(),
    ensures
        exists|i0: int|
            0 <= i0 < assignments.len() && (#[trigger] assignments[i0]).1@.len() == k + 1
                && rows_for_arity(assignments, s, k)[j] == entry_row(assignments[i0], s),
    decreases assignments.len(),
{
    let prev = rows_for_arity(assignments.drop_last(), s, k);
    if j < prev.len() {
        lemma_rows_for_arity_element(assignments.drop_last(), s, k, j);
        let i0 = choose|i0: int|
            0 <= i0 < assignments.drop_last().len()
                && (#[trigger] assignments.drop_last()[i0]).1@.len() == k + 1
                && prev[j] == entry_row(assignments.drop_last()[i0], s);
        assert(assignments[i0] == assignments.drop_last()[i0]);
        assert(rows_for_arity(assignments, s, k)[j] == prev[j]);
    } else {
        assert(assignments.last().1@.len() == k + 1);
        let i0 = assignments.len() - 1;
        assert(assignments[i0] == assignments.last());
        assert(rows_for_arity(assignments, s, k)[j] == entry_row(assignments[i0], s));
    }
}

/// Builds a submittable solution from a solver's assignment set: converts
/// it to the compact form, trims it to the weight budget, and claims the
/// score recomputed from the trimmed form — exactly the score the
/// feasibility check will reproduce.
///
/// Success is owed whenever the set converts, its shares leave room for
/// the final ones, and it is small enough to fit the weight budget
/// outright; the result is then the untrimmed conversion itself.
pub fn prepare_election_result(
    assignments: &Vec<(u64, Vec<(u64, u16)>)>,
    snapshot: &Snapshot,
    model: &WeightModel,
    witness: WitnessData,
    max_weight: u64,
) -> (r: Result<RawSolution, Error>)
    requires
        snapshot.voters@.len() <= u32::MAX,
        assignments@.len() <= u32::MAX,
        model.weight_of(0) <= max_weight,
    ensures
        r matches Ok(raw) ==> {
            &&& raw.compact.wf()
            &&& raw.compact.spec_len() <= witness.voters
            &&& model.weight_of(raw.compact.spec_len()) <= max_weight
            &&& raw.score == crate::feasibility::spec_score(raw.compact, *snapshot)
        },
        (convertible(assignments@, *snapshot) && (forall|i: int|
            0 <= i < assignments@.len() ==> entry_shares_fit(#[trigger] assignments@[i],
                *snapshot)) && assignments@.len() <= witness.voters
            && model.weight_of(assignments@.len() as int) < max_weight) ==> r is Ok
            && (r matches Ok(raw) ==> forall|k: int|
                0 <= k < raw.compact.buckets@.len() ==> bucket_matches(
                    (#[trigger] raw.compact.buckets@[k])@,
                    rows_for_arity(assignments@, *snapshot, k),
                )),
{
    let compact = match from_assignment(assignments, snapshot) {
        Ok(c) => c,
        Err(e) => {
            return Err(e);
        },
    };
    let maximum_allowed_voters = maximum_compact_len(model, witness, max_weight);
    let ghost fits_outright = assignments@.len() <= witness.voters
        && model.weight_of(assignments@.len() as int) < max_weight;
    proof {
        if fits_outright {
            if maximum_allowed_voters < witness.voters {
                if assignments@.len() > maximum_allowed_voters {
                    lemma_weight_monotone(*model, maximum_allowed_voters + 1,
                        assignments@.len() as int);
                }
            }
            assert(compact.spec_len() <= maximum_allowed_voters);
        }
    }
    let trimmed = match trim_compact(maximum_allowed_voters, compact, snapshot) {
        Ok(c) => c,
        Err(e) => {
            return Err(e);
        },
    };
    proof {
        // Every surviving row is a converted row, so the indexes of the
        // trimmed solution still resolve.
        assert forall|k: int, j: int|
            0 <= k < trimmed.buckets@.len() && 0 <= j < trimmed.buckets@[k]@.len()
            implies crate::feasibility::row_voter_valid(#[trigger] trimmed.buckets@[k]@[j],
                snapshot.voters@.len() as int) && crate::feasibility::row_targets_valid(
                trimmed.buckets@[k]@[j],
                snapshot.targets@.len() as int,
            ) by {
            assert(row_kept(trimmed, compact, k, j));
            let j0 = choose|j0: int|
                0 <= j0 < compact.buckets@[k]@.len() && compact.buckets@[k]@[j0]
                    == trimmed.buckets@[k]@[j];
            assert(crate::feasibility::row_voter_valid(compact.buckets@[k]@[j0],
                snapshot.voters@.len() as int));
        }
        if fits_outright && (forall|i: int|
            0 <= i < assignments@.len() ==> entry_shares_fit(#[trigger] assignments@[i],
                *snapshot)) {
            assert forall|k: int, j: int|
                0 <= k < trimmed.buckets@.len() && 0 <= j < trimmed.buckets@[k]@.len()
                implies crate::feasibility::row_shares_valid(
                    #[trigger] trimmed.buckets@[k]@[j]) by {
                assert(trimmed == compact);
                assert(bucket_matches(compact.buckets@[k]@,
                    rows_for_arity(assignments@, *snapshot, k)));
                assert(crate::codec::row_model(compact.buckets@[k]@[j])
                    == rows_for_arity(assignments@, *snapshot, k)[j]);
                lemma_rows_for_arity_element(assignments@, *snapshot, k, j);
                let i0 = choose|i0: int|
                    0 <= i0 < assignments@.len()
                        && (#[trigger] assignments@[i0]).1@.len() == k + 1
                        && rows_for_arity(assignments@, *snapshot, k)[j]
                        == entry_row(assignments@[i0], *snapshot);
                assert(entry_shares_fit(assignments@[i0], *snapshot));
                assert(compact.buckets@[k]@[j].edges@
                    == entry_row(assignments@[i0], *snapshot).1);
            }
        }
    }
    if !crate::feasibility::check_shares_valid(&trimmed) {
        return Err(Error::NposElections(crate::types::ElectionError::CompactStakeOverflow));
    }
    let (_, score) = crate::feasibility::compute_supports_and_score(&trimmed, snapshot);
    proof {
        trimmed.lemma_len_up_to_nonnegative(trimmed.buckets@.len() as int);
        lemma_weight_monotone(*model, trimmed.spec_len(), maximum_allowed_voters as int);
    }
    Ok(RawSolution { compact: trimmed, score })
}

/// The pre-submission gate shared by the miner and the validator side:
/// an automatic submission is accepted for checking only while the
/// automatic window is open, and only if it improves on the currently
/// accepted solution by more than the threshold.
pub fn pre_dispatch_checks(
    current_phase: Phase,
    queued: &Option<ReadySolution>,
    solution: &RawSolution,
    threshold_parts: u32,
) -> (r: Result<(), PalletError>)
    requires
        threshold_parts <= THRESHOLD_ACCURACY,
    ensures
        r == (if !(current_phase matches Phase::Unsigned(open, _) && open) {
            Err::<(), PalletError>(PalletError::EarlySubmission)
        } else if queued matches Some(q) && !score_better_by(solution.score, q.score,
            threshold_parts) {
            Err::<(), PalletError>(PalletError::WeakSubmission)
        } else {
            Ok::<(), PalletError>(())
        }),
{
    if !current_phase.is_unsigned_open() {
        return Err(PalletError::EarlySubmission);
    }
    match queued {
        Some(q) => {
            if is_score_better(solution.score, q.score, threshold_parts) {
                Ok(())
            } else {
                Err(PalletError::WeakSubmission)
            }
        },
        None => Ok(()),
    }
}

} // verus!
