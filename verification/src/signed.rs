//! The staked submission queue of the open market window: a bounded pool
//! of candidate solutions kept sorted ascending by score, with the
//! deposit and reward rules attached to each entry.

use vstd::prelude::*;
use crate::types::{ElectionScore, RawSolution, SignedSubmission};
use crate::score::{
    score_better_by, is_score_better, lemma_score_better_asymmetric, THRESHOLD_ACCURACY,
};
use crate::compact::CompactSolution;
use crate::codec::{encodable_model, encoded_bytes, encoded_size, solution_model};

verus! {

/// The capacity and economic parameters of the queue.
pub struct QueueConfig {
    /// The most submissions the queue may hold.
    pub max_submissions: u32,
    /// The relative improvement threshold, in parts of
    /// `THRESHOLD_ACCURACY`.
    pub threshold_parts: u32,
    /// The fixed part of every deposit.
    pub deposit_base: u64,
    /// The deposit charged per encoded byte of the solution.
    pub deposit_byte: u64,
    /// The deposit charged per unit of feasibility-check cost.
    pub deposit_weight: u64,
    /// The fixed part of the reward.
    pub reward_base: u64,
    /// The reward factor applied to the claimed total stake, in parts of
    /// `THRESHOLD_ACCURACY`.
    pub reward_factor_parts: u32,
    /// The cost of one feasibility check, in weight units.
    pub feasibility_weight: u64,
}

impl QueueConfig {
    /// Both rate parameters are parts of a whole.
    pub open spec fn wf(self) -> bool {
        self.threshold_parts <= THRESHOLD_ACCURACY
            && self.reward_factor_parts <= THRESHOLD_ACCURACY
    }
}

/// The deposit owed for storing a solution: a fixed base, a per-byte rent
/// on the encoded size, and a charge for the feasibility check it may
/// cost.
pub open spec fn deposit_for_spec(config: QueueConfig, compact: CompactSolution) -> int {
    config.deposit_base + config.deposit_byte * encoded_bytes(compact).len()
        + config.deposit_weight * config.feasibility_weight
}

/// A value capped into the balance range.
pub open spec fn sat_u64(x: u128) -> int {
    vstd::math::min(x as int, u64::MAX as int)
}

/// The reward owed if a solution wins: a fixed base plus the reward
/// factor applied to the claimed total stake.
pub open spec fn reward_for_spec(config: QueueConfig, score: ElectionScore) -> int {
    config.reward_base + (config.reward_factor_parts * sat_u64(score.sum_stake))
        / (THRESHOLD_ACCURACY as int)
}

/// Collects the deposit for storing this solution on chain.
pub fn deposit_for(config: &QueueConfig, solution: &RawSolution) -> (d: u64)
    requires
        encodable_model(solution_model(solution.compact)),
        deposit_for_spec(*config, solution.compact) <= u64::MAX,
    ensures
        d == deposit_for_spec(*config, solution.compact),
{
    let encoded_len = encoded_size(&solution.compact);
    proof {
        assert(config.deposit_byte * encoded_len >= 0) by (nonlinear_arith)
            requires config.deposit_byte >= 0, encoded_len >= 0,
        {}
        assert(config.deposit_weight * config.feasibility_weight >= 0) by (nonlinear_arith)
            requires config.deposit_weight >= 0, config.feasibility_weight >= 0,
        {}
    }
    let len_deposit = config.deposit_byte * (encoded_len as u64);
    let weight_deposit = config.deposit_weight * config.feasibility_weight;
    config.deposit_base + len_deposit + weight_deposit
}

/// The reward for this solution if it is chosen as the best one at the
/// end of the market window.
pub fn reward_for(config: &QueueConfig, solution: &RawSolution) -> (r: u64)
    requires
        config.wf(),
        reward_for_spec(*config, solution.score) <= u64::MAX,
    ensures
        r == reward_for_spec(*config, solution.score),
{
    let s: u64 = if solution.score.sum_stake <= u64::MAX as u128 {
        solution.score.sum_stake as u64
    } else {
        u64::MAX
    };
    let b: u128 = THRESHOLD_ACCURACY as u128;
    let p: u128 = config.reward_factor_parts as u128;
    proof {
        assert(p * (s as u128) <= b * (s as u128)) by (nonlinear_arith)
            requires p <= b, s >= 0,
        {}
        assert((b * (s as u128)) as int / (b as int) == s as int) by {
            vstd::arithmetic::div_mod::lemma_div_multiples_vanish(s as int, b as int);
        }
        assert(p * (s as u128) / (b as int) <= s) by {
            vstd::arithmetic::div_mod::lemma_div_is_ordered(
                (p * (s as u128)) as int, (b * (s as u128)) as int, b as int);
        }
        assert(p * (s as u128) / (b as int) >= 0) by {
            vstd::arithmetic::div_mod::lemma_div_pos_is_pos((p * (s as u128)) as int, b as int);
        }
    }
    let factor_part: u128 = p * (s as u128) / b;
    config.reward_base + (factor_part as u64)
}

/// The queue is sorted ascending: no entry is better, by the threshold,
/// than the entry above it. The worst entry sits at index zero.
pub open spec fn queue_sorted(q: Seq<SignedSubmission>, parts: u32) -> bool {
    forall|i: int|
        0 <= i && i + 1 < q.len() ==> !score_better_by(
            (#[trigger] q[i]).solution.score,
            q[i + 1].solution.score,
            parts,
        )
}

/// Where a new score belongs: one past the best entry it improves on,
/// scanning from the best end down, or zero if it improves on none.
pub open spec fn insertion_position(q: Seq<SignedSubmission>, s: ElectionScore, parts: u32) -> int
    decreases q.len(),
{
    if q.len() == 0 {
        0
    } else if score_better_by(s, q.last().solution.score, parts) {
        q.len() as int
    } else {
        insertion_position(q.drop_last(), s, parts)
    }
}

/// The insertion position is in range, the entry below it is improved
/// upon, and no entry from it upward is.
pub proof fn lemma_insertion_position_props(q: Seq<SignedSubmission>, s: ElectionScore, parts: u32)
    ensures
        0 <= insertion_position(q, s, parts) <= q.len(),
        insertion_position(q, s, parts) > 0 ==> score_better_by(
            s,
            q[insertion_position(q, s, parts) - 1].solution.score,
            parts,
        ),
        forall|j: int|
            insertion_position(q, s, parts) <= j < q.len() ==> !score_better_by(
                s,
                (#[trigger] q[j]).solution.score,
                parts,
            ),
    decreases q.len(),
{
    if q.len() > 0 && !score_better_by(s, q.last().solution.score, parts) {
        lemma_insertion_position_props(q.drop_last(), s, parts);
        let ip = insertion_position(q, s, parts);
        assert forall|j: int| ip <= j < q.len()
            implies !score_better_by(s, (#[trigger] q[j]).solution.score, parts) by {
            if j < q.len() - 1 {
                assert(q.drop_last()[j] == q[j]);
            }
        }
    }
}

/// An insertion that would be rejected: the new score improves on no
/// stored entry while the queue is at capacity.
pub open spec fn insert_rejected(
    q: Seq<SignedSubmission>,
    s: ElectionScore,
    parts: u32,
    max: u32,
) -> bool {
    insertion_position(q, s, parts) == 0 && q.len() >= max
}

/// The queue after accepting an entry at the insertion position: the new
/// entry goes in, and if capacity is now exceeded the single worst entry
/// is evicted.
pub open spec fn queue_after_insert(
    q: Seq<SignedSubmission>,
    sub: SignedSubmission,
    at: int,
    max: u32,
) -> Seq<SignedSubmission> {
    if q.len() < max {
        q.take(at) + seq![sub] + q.skip(at)
    } else {
        q.subrange(1, at) + seq![sub] + q.skip(at)
    }
}

/// Scans from the best end down for the first stored entry the new score
/// improves on, returning the slot just past it.
pub(crate) fn find_insert_position(queue: &Vec<SignedSubmission>, score: &ElectionScore, parts: u32) -> (at:
    usize)
    requires
        parts <= THRESHOLD_ACCURACY,
    ensures
        at == insertion_position(queue@, *score, parts),
{
    let ghost q0 = queue@;
    let mut at: usize = queue.len();
    proof {
        assert(q0.take(at as int) =~= q0);
    }
    loop
        invariant_except_break
            at <= q0.len(),
            q0 == queue@,
            parts <= THRESHOLD_ACCURACY,
            insertion_position(q0, *score, parts)
                == insertion_position(q0.take(at as int), *score, parts),
        ensures
            at == insertion_position(queue@, *score, parts),
        decreases at,
    {
        if at == 0 {
            proof {
                assert(q0.take(0) =~= Seq::<SignedSubmission>::empty());
            }
            break;
        }
        let better = is_score_better(*score, queue[at - 1].solution.score, parts);
        proof {
            assert(q0.take(at as int).len() == at);
            assert(q0.take(at as int).last() == q0[at - 1]);
        }
        if better {
            break;
        }
        proof {
            assert(q0.take(at as int).drop_last() =~= q0.take(at as int - 1));
            assert(insertion_position(q0.take(at as int), *score, parts)
                == insertion_position(q0.take(at as int - 1), *score, parts));
        }
        at = at - 1;
    }
    at
}

/// Finds a proper position in the queue for a new solution, keeping the
/// order of solution quality, and stores it there with its deposit and
/// reward.
///
/// Returns the index the new entry ended at, or `None`, leaving the queue
/// untouched, exactly when the queue is full and the solution improves on
/// none of the stored ones; an equal score is never an improvement. The
/// queue never grows past its capacity and stays sorted.
pub fn insert_submission(
    queue: &mut Vec<SignedSubmission>,
    config: &QueueConfig,
    who: u64,
    solution: RawSolution,
) -> (r: Option<usize>)
    requires
        config.wf(),
        encodable_model(solution_model(solution.compact)),
        deposit_for_spec(*config, solution.compact) <= u64::MAX,
        reward_for_spec(*config, solution.score) <= u64::MAX,
        old(queue)@.len() <= config.max_submissions,
        queue_sorted(old(queue)@, config.threshold_parts),
    ensures
        final(queue)@.len() <= config.max_submissions,
        queue_sorted(final(queue)@, config.threshold_parts),
        r is None <==> insert_rejected(old(queue)@, solution.score, config.threshold_parts,
            config.max_submissions),
        r is None ==> final(queue)@ == old(queue)@,
        r matches Some(idx) ==> {
            &&& final(queue)@ == queue_after_insert(
                old(queue)@,
                (SignedSubmission {
                    who,
                    deposit: deposit_for_spec(*config, solution.compact) as u64,
                    reward: reward_for_spec(*config, solution.score) as u64,
                    solution,
                }),
                insertion_position(old(queue)@, solution.score, config.threshold_parts),
                config.max_submissions,
            )
            &&& idx == if old(queue)@.len() < config.max_submissions {
                insertion_position(old(queue)@, solution.score, config.threshold_parts)
            } else {
                insertion_position(old(queue)@, solution.score, config.threshold_parts) - 1
            }
        },
{
    let ghost q0 = queue@;
    let ghost parts = config.threshold_parts;
    let at = find_insert_position(queue, &solution.score, config.threshold_parts);
    proof {
        lemma_insertion_position_props(q0, solution.score, parts);
    }
    if at == 0 && queue.len() >= config.max_submissions as usize {
        return None;
    }
    let reward = reward_for(config, &solution);
    let deposit = deposit_for(config, &solution);
    let ghost score = solution.score;
    let sub = SignedSubmission { who, deposit, reward, solution };
    queue.insert(at, sub);
    let ghost inserted = queue@;
    proof {
        assert(inserted =~= q0.take(at as int) + seq![sub] + q0.skip(at as int));
        assert forall|i: int| 0 <= i && i + 1 < inserted.len()
            implies !score_better_by(
                (#[trigger] inserted[i]).solution.score,
                inserted[i + 1].solution.score,
                parts,
            ) by {
            if i + 1 < at {
                assert(inserted[i] == q0[i] && inserted[i + 1] == q0[i + 1]);
            } else if i + 1 == at {
                assert(inserted[i] == q0[i] && inserted[at as int] == sub);
                lemma_score_better_asymmetric(score, q0[at - 1].solution.score, parts);
            } else if i == at {
                assert(inserted[i] == sub && inserted[i + 1] == q0[i]);
            } else {
                assert(inserted[i] == q0[i - 1] && inserted[i + 1] == q0[i]);
            }
        }
    }
    if queue.len() > config.max_submissions as usize {
        queue.remove(0);
        proof {
            assert(queue@ =~= inserted.drop_first());
            assert forall|i: int| 0 <= i && i + 1 < queue@.len()
                implies !score_better_by(
                    (#[trigger] queue@[i]).solution.score,
                    queue@[i + 1].solution.score,
                    parts,
                ) by {
                assert(queue@[i] == inserted[i + 1] && queue@[i + 1] == inserted[i + 2]);
            }
            assert(queue@ =~= queue_after_insert(q0, sub, at as int, config.max_submissions));
        }
        Some(at - 1)
    } else {
        proof {
            assert(queue@ =~= queue_after_insert(q0, sub, at as int, config.max_submissions));
        }
        Some(at)
    }
}

/// In a full queue in which every stored score equals the incoming one,
/// the insertion is rejected outright: an equal score is no improvement,
/// so nothing is inserted and nothing is evicted.
pub proof fn lemma_equal_scores_fill_rejects(
    q: Seq<SignedSubmission>,
    s: ElectionScore,
    parts: u32,
    max: u32,
)
    requires
        q.len() >= max,
        forall|i: int| 0 <= i < q.len() ==> (#[trigger] q[i]).solution.score == s,
    ensures
        insert_rejected(q, s, parts, max),
    decreases q.len(),
{
    if q.len() > 0 {
        crate::score::lemma_equal_score_is_no_improvement(s, parts);
        assert(!score_better_by(s, q.last().solution.score, parts));
        lemma_equal_positions_zero(q, s, parts);
    }
}

/// The insertion position in a queue of all-equal scores is zero.
proof fn lemma_equal_positions_zero(q: Seq<SignedSubmission>, s: ElectionScore, parts: u32)
    requires
        forall|i: int| 0 <= i < q.len() ==> (#[trigger] q[i]).solution.score == s,
    ensures
        insertion_position(q, s, parts) == 0,
    decreases q.len(),
{
    if q.len() > 0 {
        crate::score::lemma_equal_score_is_no_improvement(s, parts);
        assert(forall|i: int| 0 <= i < q.drop_last().len()
            ==> (#[trigger] q.drop_last()[i]).solution.score == s);
        lemma_equal_positions_zero(q.drop_last(), s, parts);
    }
}

} // verus!
