//! One round of the two-phase election, as an explicit state value: the
//! phase controller, the submission entry points, the market drain, and
//! round settlement.

use vstd::prelude::*;
use crate::feasibility::{feasibility_check, feasible, DistributionValidator, Snapshot};
use crate::ledger::Ledger;
use crate::signed::{
    deposit_for, deposit_for_spec, find_insert_position, insert_rejected, insert_submission,
    queue_after_insert, queue_sorted, reward_for_spec, QueueConfig,
};
use crate::types::{
    ElectionCompute, Error, PalletError, Phase, RawSolution, ReadySolution, SignedSubmission,
    Support,
};
use crate::unsigned::pre_dispatch_checks;
use crate::codec::{encodable_model, solution_model};

verus! {

/// What the phase controller decides at a tick.
#[derive(Clone, Copy, PartialEq, Eq, Structural, Debug)]
pub enum PhaseAction {
    /// Nothing changes at this tick.
    Stay,
    /// The market window opens: capture a snapshot and start a new round.
    OpenSigned,
    /// The market window closes: drain the queue and open the automatic
    /// window.
    OpenUnsigned,
}

/// The phase decision of one tick, driven only by the remaining time to
/// the predicted round deadline.
pub fn phase_transition(
    current: Phase,
    now: u64,
    next_election: u64,
    signed_phase_len: u64,
    unsigned_phase_len: u64,
) -> (a: PhaseAction)
    requires
        signed_phase_len + unsigned_phase_len <= u64::MAX,
    ensures
        a == (if current is Off
            && vstd::math::max(next_election as int, now as int) - now
                <= signed_phase_len + unsigned_phase_len
            && vstd::math::max(next_election as int, now as int) - now > unsigned_phase_len {
            PhaseAction::OpenSigned
        } else if current is Signed
            && vstd::math::max(next_election as int, now as int) - now <= unsigned_phase_len
            && vstd::math::max(next_election as int, now as int) - now > 0 {
            PhaseAction::OpenUnsigned
        } else {
            PhaseAction::Stay
        }),
{
    let next = if next_election >= now {
        next_election
    } else {
        now
    };
    let remaining = next - now;
    let signed_deadline = signed_phase_len + unsigned_phase_len;
    match current {
        Phase::Off => {
            if remaining <= signed_deadline && remaining > unsigned_phase_len {
                PhaseAction::OpenSigned
            } else {
                PhaseAction::Stay
            }
        },
        Phase::Signed => {
            if remaining <= unsigned_phase_len && remaining > 0 {
                PhaseAction::OpenUnsigned
            } else {
                PhaseAction::Stay
            }
        },
        _ => PhaseAction::Stay,
    }
}

/// Whether any queue entry is feasible against the snapshot and the
/// provider judgment.
pub open spec fn any_feasible<V: DistributionValidator>(
    q: Seq<SignedSubmission>,
    s: Snapshot,
    v: V,
) -> bool {
    exists|i: int|
        0 <= i < q.len() && feasible(s, v, (#[trigger] q[i]).solution.compact,
            q[i].solution.score)
}

/// The exact ledger effect of an accepted market submission: the
/// submitter's deposit moves from free to reserved, and an evicted
/// entry's deposit is released back, every other account untouched.
pub open spec fn submit_ledger_effect(
    l0: Ledger,
    l1: Ledger,
    who: u64,
    deposit: int,
    evicted: Option<(u64, u64)>,
) -> bool {
    match evicted {
        None => {
            &&& l1.free_of(who) == l0.free_of(who) - deposit
            &&& l1.reserved_of(who) == vstd::math::min(l0.reserved_of(who) + deposit,
                u64::MAX as int)
            &&& forall|w: u64| w != who ==> l1.free_of(w) == l0.free_of(w)
                && l1.reserved_of(w) == l0.reserved_of(w)
        },
        Some((evicted_who, evicted_deposit)) => {
            if evicted_who == who {
                let f1 = l0.free_of(who) - deposit;
                let r1 = vstd::math::min(l0.reserved_of(who) + deposit, u64::MAX as int);
                let m = vstd::math::min(evicted_deposit as int, r1);
                &&& l1.free_of(who) == vstd::math::min(f1 + m, u64::MAX as int)
                &&& l1.reserved_of(who) == r1 - m
                &&& forall|w: u64| w != who ==> l1.free_of(w) == l0.free_of(w)
                    && l1.reserved_of(w) == l0.reserved_of(w)
            } else {
                let m = vstd::math::min(evicted_deposit as int, l0.reserved_of(evicted_who));
                &&& l1.free_of(who) == l0.free_of(who) - deposit
                &&& l1.reserved_of(who) == vstd::math::min(l0.reserved_of(who) + deposit,
                    u64::MAX as int)
                &&& l1.free_of(evicted_who) == vstd::math::min(l0.free_of(evicted_who) + m,
                    u64::MAX as int)
                &&& l1.reserved_of(evicted_who) == l0.reserved_of(evicted_who) - m
                &&& forall|w: u64| w != who && w != evicted_who ==> l1.free_of(w)
                    == l0.free_of(w) && l1.reserved_of(w) == l0.reserved_of(w)
            }
        },
    }
}

/// The best (largest) queue index holding a feasible entry, or `-1`.
pub open spec fn top_feasible<V: DistributionValidator>(
    q: Seq<SignedSubmission>,
    s: Snapshot,
    v: V,
) -> int
    decreases q.len(),
{
    if q.len() == 0 {
        -1
    } else if feasible(s, v, q.last().solution.compact, q.last().solution.score) {
        q.len() - 1
    } else {
        top_feasible(q.drop_last(), s, v)
    }
}

/// Where the top feasible entry sits: it is feasible, everything above it
/// is not, and nothing is feasible when there is none.
pub proof fn lemma_top_feasible_props<V: DistributionValidator>(
    q: Seq<SignedSubmission>,
    s: Snapshot,
    v: V,
)
    ensures
        -1 <= top_feasible(q, s, v) < q.len(),
        top_feasible(q, s, v) >= 0 ==> feasible(s, v,
            q[top_feasible(q, s, v)].solution.compact,
            q[top_feasible(q, s, v)].solution.score),
        forall|i: int|
            top_feasible(q, s, v) < i < q.len() ==> !feasible(s, v,
                (#[trigger] q[i]).solution.compact, q[i].solution.score),
    decreases q.len(),
{
    if q.len() > 0 && !feasible(s, v, q.last().solution.compact, q.last().solution.score) {
        lemma_top_feasible_props(q.drop_last(), s, v);
        let t = top_feasible(q, s, v);
        assert forall|i: int| t < i < q.len()
            implies !feasible(s, v, (#[trigger] q[i]).solution.compact,
                q[i].solution.score) by {
            if i < q.len() - 1 {
                assert(q.drop_last()[i] == q[i]);
            }
        }
    }
}

/// The balances of one account after the drain resolves the top `i`
/// queue entries, processed from the best end down: entries above the
/// winner `w` forfeit their held deposit, the winner is refunded in full
/// and its reward minted, and entries below the winner are refunded.
pub open spec fn drained_balances(
    q: Seq<SignedSubmission>,
    i: int,
    w: int,
    who: u64,
    free: int,
    reserved: int,
) -> (int, int)
    decreases i,
{
    if i <= 0 {
        (free, reserved)
    } else {
        let e = q[i - 1];
        let moved = vstd::math::min(e.deposit as int, reserved);
        if e.who != who {
            drained_balances(q, i - 1, w, who, free, reserved)
        } else if i - 1 > w {
            drained_balances(q, i - 1, w, who, free, reserved - moved)
        } else if i - 1 == w {
            drained_balances(
                q,
                i - 1,
                w,
                who,
                vstd::math::min(
                    vstd::math::min(free + moved, u64::MAX as int) + e.reward,
                    u64::MAX as int,
                ),
                reserved - moved,
            )
        } else {
            drained_balances(q, i - 1, w, who,
                vstd::math::min(free + moved, u64::MAX as int), reserved - moved)
        }
    }
}

/// The full state of one round.
pub struct RoundState {
    /// How many rounds have started.
    pub round: u32,
    /// The active phase.
    pub current_phase: Phase,
    /// The market queue, sorted ascending by score.
    pub signed_submissions: Vec<SignedSubmission>,
    /// The accepted solution of this round, if any has been verified.
    pub queued_solution: Option<ReadySolution>,
    /// The frozen snapshot, present from market open to settlement.
    pub snapshot: Option<Snapshot>,
}

impl RoundState {
    /// Queue entries are well-formed, the queue is sorted and within
    /// capacity.
    pub open spec fn wf(self, config: QueueConfig) -> bool {
        &&& self.signed_submissions@.len() <= config.max_submissions
        &&& queue_sorted(self.signed_submissions@, config.threshold_parts)
        &&& forall|i: int|
            0 <= i < self.signed_submissions@.len()
                ==> (#[trigger] self.signed_submissions@[i]).solution.compact.wf()
    }

    /// A fresh, idle round state.
    pub fn new() -> (r: RoundState)
        ensures
            r.round == 0,
            r.current_phase is Off,
            r.signed_submissions@.len() == 0,
            r.queued_solution is None,
            r.snapshot is None,
            forall|config: QueueConfig| r.wf(config),
    {
        RoundState {
            round: 0,
            current_phase: Phase::Off,
            signed_submissions: Vec::new(),
            queued_solution: None,
            snapshot: None,
        }
    }

    /// The current round counter.
    pub fn round(&self) -> (r: u32)
        ensures
            r == self.round,
    {
        self.round
    }

    /// The active phase.
    pub fn current_phase(&self) -> (r: Phase)
        ensures
            r == self.current_phase,
    {
        self.current_phase
    }

    /// The market queue.
    pub fn signed_submissions(&self) -> (r: &Vec<SignedSubmission>)
        ensures
            r == self.signed_submissions,
    {
        &self.signed_submissions
    }

    /// The accepted solution, if one has been verified.
    pub fn queued_solution(&self) -> (r: &Option<ReadySolution>)
        ensures
            r == self.queued_solution,
    {
        &self.queued_solution
    }

    /// The frozen target accounts, while a snapshot stands.
    pub fn snapshot_targets(&self) -> (r: Option<&Vec<u64>>)
        ensures
            r is Some <==> self.snapshot is Some,
            r matches Some(t) ==> t == self.snapshot->Some_0.targets,
    {
        match &self.snapshot {
            Some(s) => Some(&s.targets),
            None => None,
        }
    }

    /// The frozen voter list, while a snapshot stands.
    pub fn snapshot_voters(&self) -> (r: Option<&Vec<(u64, u64, Vec<u64>)>>)
        ensures
            r is Some <==> self.snapshot is Some,
            r matches Some(v) ==> v == self.snapshot->Some_0.voters,
    {
        match &self.snapshot {
            Some(s) => Some(&s.voters),
            None => None,
        }
    }

    /// The number of winners the round must produce; zero while no
    /// snapshot is frozen.
    pub fn desired_targets(&self) -> (r: u32)
        ensures
            r == (match self.snapshot {
                Some(s) => s.desired_targets,
                None => 0u32,
            }),
    {
        match &self.snapshot {
            Some(s) => s.desired_targets,
            None => 0,
        }
    }

    /// Opens the market window: freezes the given snapshot, starts a new
    /// round, and begins accepting signed submissions.
    pub fn start_signed_phase(&mut self, snapshot: Snapshot)
        requires
            old(self).round < u32::MAX,
        ensures
            final(self).round == old(self).round + 1,
            final(self).current_phase is Signed,
            final(self).snapshot == Some(snapshot),
            final(self).signed_submissions == old(self).signed_submissions,
            final(self).queued_solution == old(self).queued_solution,
    {
        self.snapshot = Some(snapshot);
        self.round = self.round + 1;
        self.current_phase = Phase::Signed;
    }

    /// Accepts a signed submission into the market queue.
    ///
    /// Returns the error, leaving round state and ledger untouched, when
    /// the phase is wrong, the full queue holds nothing the solution
    /// improves on, or the submitter cannot pay the deposit. Otherwise
    /// the deposit is reserved, the entry stored in score order, and a
    /// capacity eviction refunds the evicted entry's deposit in full.
    pub fn submit(
        &mut self,
        ledger: &mut Ledger,
        config: &QueueConfig,
        who: u64,
        solution: RawSolution,
    ) -> (r: Result<(), PalletError>)
        requires
            old(self).wf(*config),
            old(ledger).wf(),
            config.wf(),
            solution.compact.wf(),
            encodable_model(solution_model(solution.compact)),
            deposit_for_spec(*config, solution.compact) <= u64::MAX,
            reward_for_spec(*config, solution.score) <= u64::MAX,
        ensures
            final(self).wf(*config),
            final(ledger).wf(),
            r is Err ==> *final(self) == *old(self) && *final(ledger) == *old(ledger),
            r == Err::<(), PalletError>(PalletError::EarlySubmission)
                <==> !(old(self).current_phase is Signed),
            r == Err::<(), PalletError>(PalletError::QueueFull)
                <==> old(self).current_phase is Signed && insert_rejected(
                    old(self).signed_submissions@,
                    solution.score,
                    config.threshold_parts,
                    config.max_submissions,
                ),
            r == Err::<(), PalletError>(PalletError::CannotPayDeposit)
                <==> old(self).current_phase is Signed && !insert_rejected(
                    old(self).signed_submissions@,
                    solution.score,
                    config.threshold_parts,
                    config.max_submissions,
                ) && old(ledger).free_of(who) < deposit_for_spec(*config, solution.compact),
            r is Ok ==> final(self).signed_submissions@ == queue_after_insert(
                old(self).signed_submissions@,
                (SignedSubmission {
                    who,
                    deposit: deposit_for_spec(*config, solution.compact) as u64,
                    reward: reward_for_spec(*config, solution.score) as u64,
                    solution,
                }),
                crate::signed::insertion_position(old(self).signed_submissions@, solution.score,
                    config.threshold_parts),
                config.max_submissions,
            ) && final(self).current_phase == old(self).current_phase
                && final(self).queued_solution == old(self).queued_solution
                && final(self).snapshot == old(self).snapshot
                && final(self).round == old(self).round,
            r is Ok <==> old(self).current_phase is Signed && !insert_rejected(
                old(self).signed_submissions@,
                solution.score,
                config.threshold_parts,
                config.max_submissions,
            ) && old(ledger).free_of(who) >= deposit_for_spec(*config, solution.compact),
            r is Ok ==> submit_ledger_effect(
                *old(ledger),
                *final(ledger),
                who,
                deposit_for_spec(*config, solution.compact),
                (if old(self).signed_submissions@.len() >= config.max_submissions {
                    Some((old(self).signed_submissions@[0].who,
                        old(self).signed_submissions@[0].deposit))
                } else {
                    None
                }),
            ),
    {
        if !self.current_phase.is_signed() {
            return Err(PalletError::EarlySubmission);
        }
        let at = find_insert_position(&self.signed_submissions, &solution.score,
            config.threshold_parts);
        if at == 0 && self.signed_submissions.len() >= config.max_submissions as usize {
            return Err(PalletError::QueueFull);
        }
        let deposit = deposit_for(config, &solution);
        if !ledger.reserve(who, deposit) {
            return Err(PalletError::CannotPayDeposit);
        }
        let ghost q0 = self.signed_submissions@;
        let was_full = self.signed_submissions.len() >= config.max_submissions as usize;
        let evicted_who: u64 = if was_full && self.signed_submissions.len() > 0 {
            self.signed_submissions[0].who
        } else {
            0
        };
        let evicted_deposit: u64 = if was_full && self.signed_submissions.len() > 0 {
            self.signed_submissions[0].deposit
        } else {
            0
        };
        let outcome = insert_submission(&mut self.signed_submissions, config, who, solution);
        proof {
            assert(outcome is Some);
            let qf = self.signed_submissions@;
            let ip = crate::signed::insertion_position(q0, solution.score,
                config.threshold_parts);
            crate::signed::lemma_insertion_position_props(q0, solution.score,
                config.threshold_parts);
            assert forall|i: int| 0 <= i < qf.len()
                implies (#[trigger] qf[i]).solution.compact.wf() by {
                if q0.len() < config.max_submissions {
                    if i < ip {
                        assert(qf[i] == q0[i]);
                    } else if i > ip {
                        assert(qf[i] == q0[i - 1]);
                    }
                } else {
                    if i < ip - 1 {
                        assert(qf[i] == q0[i + 1]);
                    } else if i > ip - 1 {
                        assert(qf[i] == q0[i]);
                    }
                }
            }
        }
        if was_full {
            ledger.unreserve(evicted_who, evicted_deposit);
        }
        Ok(())
    }

    /// Closes the market: drains the queue best-first through the
    /// feasibility check. The first feasible entry from the best end
    /// becomes the accepted solution, its submitter refunded in full and
    /// rewarded; every entry that failed the check forfeits its held
    /// deposit; all remaining entries are refunded without being checked.
    /// Returns whether a solution was accepted.
    ///
    /// Every account's balances move exactly as `drained_balances` says;
    /// in particular no free balance falls and no reserved balance rises.
    pub fn finalize_signed_phase<V: DistributionValidator>(
        &mut self,
        ledger: &mut Ledger,
        validator: &V,
    ) -> (found: bool)
        requires
            old(self).snapshot is Some,
            old(ledger).wf(),
            forall|i: int|
                0 <= i < old(self).signed_submissions@.len()
                    ==> (#[trigger] old(self).signed_submissions@[i]).solution.compact.wf(),
        ensures
            final(ledger).wf(),
            forall|a: u64| #![auto] final(ledger).free_of(a) >= old(ledger).free_of(a)
                && final(ledger).reserved_of(a) <= old(ledger).reserved_of(a),
            forall|a: u64| #![auto]
                (final(ledger).free_of(a), final(ledger).reserved_of(a))
                    == drained_balances(
                    old(self).signed_submissions@,
                    old(self).signed_submissions@.len() as int,
                    top_feasible(old(self).signed_submissions@, old(self).snapshot->Some_0,
                        *validator),
                    a,
                    old(ledger).free_of(a),
                    old(ledger).reserved_of(a),
                ),
            final(self).signed_submissions@.len() == 0,
            final(self).current_phase == old(self).current_phase,
            final(self).snapshot == old(self).snapshot,
            final(self).round == old(self).round,
            found == any_feasible(old(self).signed_submissions@, old(self).snapshot->Some_0,
                *validator),
            found <==> top_feasible(old(self).signed_submissions@,
                old(self).snapshot->Some_0, *validator) >= 0,
            !found ==> final(self).queued_solution == old(self).queued_solution,
            found ==> (final(self).queued_solution matches Some(ready)
                && ready.compute is Signed
                && ready.score == old(self).signed_submissions@[top_feasible(
                    old(self).signed_submissions@,
                    old(self).snapshot->Some_0,
                    *validator,
                )].solution.score
                && crate::feasibility::supports_state(
                    ready.supports@,
                    crate::feasibility::spec_winners(
                        old(self).signed_submissions@[top_feasible(
                            old(self).signed_submissions@,
                            old(self).snapshot->Some_0,
                            *validator,
                        )].solution.compact,
                        old(self).snapshot->Some_0,
                    ),
                    crate::feasibility::solution_contribs(
                        old(self).signed_submissions@[top_feasible(
                            old(self).signed_submissions@,
                            old(self).snapshot->Some_0,
                            *validator,
                        )].solution.compact,
                        old(self).snapshot->Some_0,
                    ),
                )),
    {
        let ghost q0 = self.signed_submissions@;
        let ghost snap0 = self.snapshot->Some_0;
        let ghost l0 = *ledger;
        let ghost top_w = top_feasible(q0, snap0, *validator);
        proof {
            lemma_top_feasible_props(q0, snap0, *validator);
            if top_w >= 0 {
                assert(any_feasible(q0, snap0, *validator));
            } else {
                if any_feasible(q0, snap0, *validator) {
                    let i = choose|i: int|
                        0 <= i < q0.len() && feasible(snap0, *validator,
                            (#[trigger] q0[i]).solution.compact, q0[i].solution.score);
                    assert(!feasible(snap0, *validator, q0[i].solution.compact,
                        q0[i].solution.score));
                }
            }
        }
        let mut found = false;
        loop
            invariant_except_break
                !found,
                forall|a: u64| #![auto] ledger.free_of(a) >= l0.free_of(a)
                    && ledger.reserved_of(a) <= l0.reserved_of(a),
                l0 == *old(ledger),
                top_w == top_feasible(q0, snap0, *validator),
                -1 <= top_w < q0.len(),
                top_w >= 0 ==> feasible(snap0, *validator,
                    q0[top_w].solution.compact, q0[top_w].solution.score),
                forall|i: int|
                    top_w < i < q0.len() ==> !feasible(snap0, *validator,
                        (#[trigger] q0[i]).solution.compact, q0[i].solution.score),
                forall|a: u64| #![auto]
                    drained_balances(q0, q0.len() as int, top_w, a, l0.free_of(a),
                        l0.reserved_of(a)) == drained_balances(q0,
                        self.signed_submissions@.len() as int, top_w, a,
                        ledger.free_of(a), ledger.reserved_of(a)),
                self.snapshot == old(self).snapshot,
                self.snapshot is Some,
                self.snapshot->Some_0 == snap0,
                self.current_phase == old(self).current_phase,
                self.round == old(self).round,
                self.queued_solution == old(self).queued_solution,
                ledger.wf(),
                self.signed_submissions@.len() <= q0.len(),
                self.signed_submissions@ == q0.take(self.signed_submissions@.len() as int),
                forall|i: int|
                    self.signed_submissions@.len() <= i < q0.len() ==> !feasible(snap0,
                        *validator, (#[trigger] q0[i]).solution.compact,
                        q0[i].solution.score),
                forall|i: int|
                    0 <= i < q0.len() ==> (#[trigger] q0[i]).solution.compact.wf(),
            ensures
                ledger.wf(),
                forall|a: u64| #![auto] ledger.free_of(a) >= l0.free_of(a)
                    && ledger.reserved_of(a) <= l0.reserved_of(a),
                l0 == *old(ledger),
                top_w == top_feasible(q0, snap0, *validator),
                forall|a: u64| #![auto]
                    drained_balances(q0, q0.len() as int, top_w, a, l0.free_of(a),
                        l0.reserved_of(a)) == drained_balances(q0,
                        self.signed_submissions@.len() as int, top_w, a,
                        ledger.free_of(a), ledger.reserved_of(a)),
                self.snapshot == old(self).snapshot,
                self.current_phase == old(self).current_phase,
                self.round == old(self).round,
                found == any_feasible(q0, snap0, *validator),
                found ==> self.signed_submissions@.len() == top_w,
                !found ==> self.signed_submissions@.len() == 0,
                self.signed_submissions@.len() <= q0.len(),
                self.signed_submissions@ == q0.take(self.signed_submissions@.len() as int),
                forall|i: int|
                    0 <= i < q0.len() ==> (#[trigger] q0[i]).solution.compact.wf(),
                !found ==> self.queued_solution == old(self).queued_solution,
                found ==> (self.queued_solution matches Some(ready)
                    && ready.compute is Signed
                    && ready.score == q0[top_w].solution.score
                    && crate::feasibility::supports_state(
                        ready.supports@,
                        crate::feasibility::spec_winners(q0[top_w].solution.compact,
                            snap0),
                        crate::feasibility::solution_contribs(q0[top_w].solution.compact,
                            snap0),
                    )),
            decreases self.signed_submissions@.len(),
        {
            let ghost len_before = self.signed_submissions@.len() as int;
            let best = match self.signed_submissions.pop() {
                Some(b) => b,
                None => {
                    proof {
                        assert(q0.take(0) =~= Seq::<SignedSubmission>::empty());
                        if any_feasible(q0, snap0, *validator) {
                            let i = choose|i: int|
                                0 <= i < q0.len() && feasible(snap0, *validator,
                                    (#[trigger] q0[i]).solution.compact,
                                    q0[i].solution.score);
                            assert(!feasible(snap0, *validator, q0[i].solution.compact,
                                q0[i].solution.score));
                        }
                    }
                    break;
                },
            };
            let ghost idx = len_before - 1;
            let ghost lpre = *ledger;
            proof {
                assert(len_before >= 1);
                assert(q0.take(len_before).last() == q0[idx]);
                assert(best == q0[idx]);
                assert(best.solution.compact.wf());
                assert(self.signed_submissions@ =~= q0.take(idx));
            }
            let check = match &self.snapshot {
                Some(snap) => feasibility_check(snap, validator, &best.solution,
                    ElectionCompute::Signed),
                None => {
                    proof {
                        assert(false);
                    }
                    Err(crate::types::FeasibilityError::SnapshotUnavailable)
                },
            };
            match check {
                Ok(ready) => {
                    self.queued_solution = Some(ready);
                    ledger.unreserve(best.who, best.deposit);
                    ledger.deposit_creating(best.who, best.reward);
                    found = true;
                    proof {
                        assert(feasible(snap0, *validator, q0[idx].solution.compact,
                            q0[idx].solution.score));
                        assert(idx == top_w) by {
                            if top_w < idx {
                                assert(!feasible(snap0, *validator,
                                    q0[idx].solution.compact, q0[idx].solution.score));
                            }
                            if top_w > idx {
                                assert(!feasible(snap0, *validator,
                                    q0[top_w].solution.compact,
                                    q0[top_w].solution.score));
                            }
                        }
                        assert forall|a: u64| #![auto]
                            drained_balances(q0, len_before, top_w, a, lpre.free_of(a),
                                lpre.reserved_of(a)) == drained_balances(q0, idx, top_w,
                                a, ledger.free_of(a), ledger.reserved_of(a)) by {}
                    }
                    break;
                },
                Err(_) => {
                    ledger.slash_reserved(best.who, best.deposit);
                    proof {
                        assert(idx > top_w) by {
                            if top_w == idx {
                                assert(feasible(snap0, *validator,
                                    q0[idx].solution.compact, q0[idx].solution.score));
                            }
                            if top_w > idx {
                                assert(!feasible(snap0, *validator,
                                    q0[top_w].solution.compact,
                                    q0[top_w].solution.score));
                            }
                        }
                        assert forall|a: u64| #![auto]
                            drained_balances(q0, len_before, top_w, a, lpre.free_of(a),
                                lpre.reserved_of(a)) == drained_balances(q0, idx, top_w,
                                a, ledger.free_of(a), ledger.reserved_of(a)) by {}
                    }
                },
            }
        }
        while self.signed_submissions.len() > 0
            invariant
                ledger.wf(),
                forall|a: u64| #![auto] ledger.free_of(a) >= l0.free_of(a)
                    && ledger.reserved_of(a) <= l0.reserved_of(a),
                l0 == *old(ledger),
                top_w == top_feasible(q0, snap0, *validator),
                -1 <= top_w < q0.len(),
                forall|a: u64| #![auto]
                    drained_balances(q0, q0.len() as int, top_w, a, l0.free_of(a),
                        l0.reserved_of(a)) == drained_balances(q0,
                        self.signed_submissions@.len() as int, top_w, a,
                        ledger.free_of(a), ledger.reserved_of(a)),
                self.snapshot == old(self).snapshot,
                self.current_phase == old(self).current_phase,
                self.round == old(self).round,
                found == any_feasible(q0, snap0, *validator),
                found ==> self.signed_submissions@.len() <= top_w,
                !found ==> self.signed_submissions@.len() == 0,
                self.signed_submissions@.len() <= q0.len(),
                self.signed_submissions@ == q0.take(self.signed_submissions@.len() as int),
                snap0 == old(self).snapshot->Some_0,
                !found ==> self.queued_solution == old(self).queued_solution,
                found ==> (self.queued_solution matches Some(ready)
                    && ready.compute is Signed
                    && ready.score == q0[top_w].solution.score
                    && crate::feasibility::supports_state(
                        ready.supports@,
                        crate::feasibility::spec_winners(q0[top_w].solution.compact,
                            snap0),
                        crate::feasibility::solution_contribs(q0[top_w].solution.compact,
                            snap0),
                    )),
                q0 == old(self).signed_submissions@,
            decreases self.signed_submissions@.len(),
        {
            let ghost len_before = self.signed_submissions@.len() as int;
            let ghost lpre = *ledger;
            match self.signed_submissions.pop() {
                Some(entry) => {
                    proof {
                        assert(q0.take(len_before).last() == q0[len_before - 1]);
                        assert(entry == q0[len_before - 1]);
                        assert(self.signed_submissions@ =~= q0.take(len_before - 1));
                    }
                    ledger.unreserve(entry.who, entry.deposit);
                    proof {
                        assert(len_before - 1 < top_w);
                        assert forall|a: u64| #![auto]
                            drained_balances(q0, len_before, top_w, a, lpre.free_of(a),
                                lpre.reserved_of(a)) == drained_balances(q0,
                                len_before - 1, top_w, a, ledger.free_of(a),
                                ledger.reserved_of(a)) by {}
                    }
                },
                None => {
                    proof {
                        assert(false);
                    }
                },
            }
        }
        found
    }

    /// Closes the market window at tick `now`: drains the queue, then
    /// opens the automatic window, flagged open for submissions exactly
    /// when the market produced no accepted solution.
    pub fn open_unsigned_phase<V: DistributionValidator>(
        &mut self,
        ledger: &mut Ledger,
        validator: &V,
        now: u64,
    )
        requires
            old(self).snapshot is Some,
            old(ledger).wf(),
            forall|i: int|
                0 <= i < old(self).signed_submissions@.len()
                    ==> (#[trigger] old(self).signed_submissions@[i]).solution.compact.wf(),
        ensures
            final(ledger).wf(),
            forall|w: u64| #![auto] final(ledger).free_of(w) >= old(ledger).free_of(w)
                && final(ledger).reserved_of(w) <= old(ledger).reserved_of(w),
            final(self).signed_submissions@.len() == 0,
            final(self).snapshot == old(self).snapshot,
            final(self).round == old(self).round,
            final(self).current_phase == Phase::Unsigned(
                !any_feasible(old(self).signed_submissions@, old(self).snapshot->Some_0,
                    *validator),
                now,
            ),
            any_feasible(old(self).signed_submissions@, old(self).snapshot->Some_0,
                *validator) ==> final(self).queued_solution is Some,
    {
        let found = self.finalize_signed_phase(ledger, validator);
        self.current_phase = Phase::Unsigned(!found, now);
    }

    /// Accepts an automatic submission: it must arrive while the
    /// automatic window is open, improve on the accepted solution by the
    /// threshold, and pass the feasibility check; it then becomes the
    /// accepted solution.
    ///
    /// A feasibility failure is reported as the feasibility error: a
    /// node that produced the solution itself must treat that as fatal,
    /// while one received from elsewhere is merely refused.
    pub fn submit_unsigned<V: DistributionValidator>(
        &mut self,
        config: &QueueConfig,
        validator: &V,
        solution: &RawSolution,
    ) -> (r: Result<(), Error>)
        requires
            config.wf(),
            solution.compact.wf(),
        ensures
            final(self).signed_submissions == old(self).signed_submissions,
            final(self).snapshot == old(self).snapshot,
            final(self).round == old(self).round,
            final(self).current_phase == old(self).current_phase,
            r is Err ==> final(self).queued_solution == old(self).queued_solution,
            r == Err::<(), Error>(Error::Submission(PalletError::EarlySubmission))
                <==> !(old(self).current_phase matches Phase::Unsigned(open, _) && open),
            r == Err::<(), Error>(Error::Submission(PalletError::WeakSubmission))
                <==> (old(self).current_phase matches Phase::Unsigned(open, _) && open)
                    && (old(self).queued_solution matches Some(q)
                        && !crate::score::score_better_by(solution.score, q.score,
                            config.threshold_parts)),
            r is Ok <==> (old(self).current_phase matches Phase::Unsigned(open, _) && open)
                && !(old(self).queued_solution matches Some(q)
                    && !crate::score::score_better_by(solution.score, q.score,
                        config.threshold_parts))
                && (old(self).snapshot matches Some(snap)
                    && feasible(snap, *validator, solution.compact, solution.score)),
            r is Ok ==> (final(self).queued_solution matches Some(ready)
                && ready.compute is Unsigned && ready.score == solution.score),
    {
        match pre_dispatch_checks(self.current_phase, &self.queued_solution, solution,
            config.threshold_parts) {
            Ok(()) => {},
            Err(e) => {
                return Err(Error::Submission(e));
            },
        }
        let check = match &self.snapshot {
            Some(snap) => feasibility_check(snap, validator, solution,
                ElectionCompute::Unsigned),
            None => Err(crate::types::FeasibilityError::SnapshotUnavailable),
        };
        match check {
            Ok(ready) => {
                self.queued_solution = Some(ready);
                Ok(())
            },
            Err(e) => Err(Error::Feasibility(e)),
        }
    }

    /// Settles the round: hands out the accepted solution, or the
    /// caller-computed fallback when none was accepted, and destroys all
    /// per-round state: the phase returns to idle, and the snapshot, the
    /// accepted solution and the submission queue are cleared. With
    /// neither a queued nor a fallback solution, the round stays exactly
    /// as it was and the fallback failure is reported.
    pub fn elect(&mut self, fallback: Option<Vec<(u64, Support)>>) -> (r: Result<
        (Vec<(u64, Support)>, ElectionCompute),
        Error,
    >)
        ensures
            final(self).round == old(self).round,
            r is Ok ==> final(self).current_phase is Off && final(self).snapshot is None
                && final(self).queued_solution is None
                && final(self).signed_submissions@.len() == 0,
            old(self).queued_solution is Some ==> r == Ok::<(Vec<(u64, Support)>,
                ElectionCompute), Error>((old(self).queued_solution->Some_0.supports,
                old(self).queued_solution->Some_0.compute)),
            (old(self).queued_solution is None && fallback is Some)
                ==> r == Ok::<(Vec<(u64, Support)>, ElectionCompute), Error>((fallback->Some_0,
                    ElectionCompute::OnChain)),
            r is Err <==> old(self).queued_solution is None && fallback is None,
            r is Err ==> r == Err::<(Vec<(u64, Support)>, ElectionCompute), Error>(
                Error::OnChainFallback,
            ) && *final(self) == *old(self),
    {
        let mut queued: Option<ReadySolution> = None;
        core::mem::swap(&mut self.queued_solution, &mut queued);
        match queued {
            Some(ready) => {
                self.current_phase = Phase::Off;
                self.snapshot = None;
                self.signed_submissions.clear();
                Ok((ready.supports, ready.compute))
            },
            None => {
                match fallback {
                    Some(supports) => {
                        self.current_phase = Phase::Off;
                        self.snapshot = None;
                        self.signed_submissions.clear();
                        Ok((supports, ElectionCompute::OnChain))
                    },
                    None => Err(Error::OnChainFallback),
                }
            },
        }
    }

    /// Whether an election round is in progress.
    pub fn ongoing(&self) -> (r: bool)
        ensures
            r == (self.current_phase is Signed || self.current_phase is Unsigned),
    {
        match self.current_phase {
            Phase::Signed => true,
            Phase::Unsigned(_, _) => true,
            _ => false,
        }
    }
}

} // verus!
