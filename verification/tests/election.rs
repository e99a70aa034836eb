//! Behavior of the round pipeline: queue economics and ordering, the
//! feasibility gate, phase timing, and the miner's dedup window.

use two_phase_election::compact::{CompactRow, CompactSolution, MAX_FANOUT};
use two_phase_election::feasibility::{
    compute_supports_and_score, feasibility_check, AcceptAllDistributions, Snapshot,
};
use two_phase_election::ledger::Ledger;
use two_phase_election::round::{phase_transition, PhaseAction, RoundState};
use two_phase_election::signed::{insert_submission, QueueConfig};
use two_phase_election::types::{
    ElectionCompute, ElectionScore, FeasibilityError, PalletError, Phase, RawSolution,
    WitnessData,
};
use two_phase_election::unsigned::{
    balancing_iterations, from_assignment, into_assignment, maximum_compact_len,
    offchain_window_check, prepare_election_result, trim_compact, unsigned_priority,
    WeightModel, OFFCHAIN_REPEAT,
};

fn empty_solution() -> CompactSolution {
    CompactSolution { buckets: (0..MAX_FANOUT).map(|_| Vec::new()).collect() }
}

fn row(voter: u32, edges: Vec<(u16, u16)>, last_target: u16) -> CompactRow {
    CompactRow { voter, edges, last_target }
}

fn score(sum: u128, min: u128, sumsq: u128) -> ElectionScore {
    ElectionScore { sum_stake: sum, min_support: min, sum_squared: sumsq }
}

fn config() -> QueueConfig {
    QueueConfig {
        max_submissions: 5,
        threshold_parts: 0,
        deposit_base: 5,
        deposit_byte: 0,
        deposit_weight: 0,
        reward_base: 7,
        reward_factor_parts: 0,
        feasibility_weight: 0,
    }
}

fn snapshot() -> Snapshot {
    Snapshot {
        voters: vec![
            (1, 10, vec![10, 20]),
            (2, 10, vec![30, 40]),
            (3, 10, vec![40]),
            (4, 10, vec![10, 20, 30, 40]),
            (10, 10, vec![10]),
            (20, 20, vec![20]),
            (30, 30, vec![30]),
            (40, 40, vec![40]),
        ],
        targets: vec![10, 20, 30, 40],
        desired_targets: 2,
    }
}

/// A solution that the snapshot accepts: winners 10 and 40, backed by
/// voters 1, 3, 10 and 40.
fn feasible_solution() -> RawSolution {
    let mut c = empty_solution();
    c.buckets[0].push(row(0, vec![], 0));
    c.buckets[0].push(row(2, vec![], 3));
    c.buckets[0].push(row(4, vec![], 0));
    c.buckets[0].push(row(7, vec![], 3));
    RawSolution { compact: c, score: score(70, 20, 2900) }
}

fn raw_with_score(s: ElectionScore) -> RawSolution {
    RawSolution { compact: empty_solution(), score: s }
}

fn ledger_with_mock_balances() -> Ledger {
    Ledger::with_balances(vec![(99, 100), (999, 100), (9999, 100)])
}

fn market_state() -> RoundState {
    let mut state = RoundState::new();
    state.start_signed_phase(snapshot());
    state
}

#[test]
fn feasible_solution_passes_the_gate() {
    let ready = feasibility_check(&snapshot(), &AcceptAllDistributions, &feasible_solution(), ElectionCompute::Signed)
        .expect("the solution is feasible");
    assert_eq!(ready.score, score(70, 20, 2900));
    assert_eq!(ready.supports.len(), 2);
    assert_eq!(ready.supports[0].0, 10);
    assert_eq!(ready.supports[0].1.total, 20);
    assert_eq!(ready.supports[1].0, 40);
    assert_eq!(ready.supports[1].1.total, 50);
}

#[test]
fn mutating_any_claimed_score_field_is_rejected() {
    let base = feasible_solution();
    let deltas: Vec<ElectionScore> = vec![
        score(71, 20, 2900),
        score(69, 20, 2900),
        score(70, 21, 2900),
        score(70, 19, 2900),
        score(70, 20, 2901),
        score(70, 20, 2899),
    ];
    for bad in deltas {
        let solution = RawSolution { compact: base.compact.clone(), score: bad };
        let r = feasibility_check(&snapshot(), &AcceptAllDistributions, &solution, ElectionCompute::Signed);
        assert_eq!(r.unwrap_err(), FeasibilityError::InvalidScore);
    }
}

#[test]
fn wrong_winner_count_is_rejected() {
    let mut c = empty_solution();
    c.buckets[0].push(row(4, vec![], 0));
    let solution = RawSolution { compact: c, score: score(10, 10, 100) };
    let r = feasibility_check(&snapshot(), &AcceptAllDistributions, &solution, ElectionCompute::Signed);
    assert_eq!(r.unwrap_err(), FeasibilityError::WrongWinnerCount);
}

#[test]
fn vote_outside_nominations_is_rejected() {
    let mut c = empty_solution();
    // Voter 10 nominates only target 10, yet votes for target 40 here.
    c.buckets[0].push(row(4, vec![], 3));
    c.buckets[0].push(row(0, vec![], 0));
    let solution = RawSolution { compact: c, score: score(20, 10, 200) };
    let r = feasibility_check(&snapshot(), &AcceptAllDistributions, &solution, ElectionCompute::Signed);
    assert_eq!(r.unwrap_err(), FeasibilityError::InvalidVote);
}

#[test]
fn unresolvable_winner_index_is_rejected() {
    let mut c = empty_solution();
    c.buckets[0].push(row(0, vec![], 0));
    c.buckets[0].push(row(1, vec![], 9));
    let solution = RawSolution { compact: c, score: score(20, 10, 200) };
    let r = feasibility_check(&snapshot(), &AcceptAllDistributions, &solution, ElectionCompute::Signed);
    assert_eq!(r.unwrap_err(), FeasibilityError::InvalidWinner);
}

#[test]
fn share_overflow_is_rejected() {
    let mut c = empty_solution();
    // Explicit share of a whole unit leaves nothing for the last target.
    c.buckets[1].push(row(0, vec![(0, 65535)], 1));
    let solution = RawSolution { compact: c, score: score(20, 10, 200) };
    let r = feasibility_check(&snapshot(), &AcceptAllDistributions, &solution, ElectionCompute::Signed);
    assert!(matches!(r.unwrap_err(), FeasibilityError::NposElectionError(_)));
}

#[test]
fn should_pay_deposit() {
    let mut state = market_state();
    let mut ledger = ledger_with_mock_balances();
    assert_eq!(ledger.balances(99), (100, 0));
    state.submit(&mut ledger, &config(), 99, feasible_solution()).expect("accepted");
    assert_eq!(ledger.balances(99), (95, 5));
    assert_eq!(state.signed_submissions().len(), 1);
    assert_eq!(state.signed_submissions()[0].deposit, 5);
    assert_eq!(state.signed_submissions()[0].reward, 7);
}

#[test]
fn good_solution_is_rewarded() {
    let mut state = market_state();
    let mut ledger = ledger_with_mock_balances();
    state.submit(&mut ledger, &config(), 99, feasible_solution()).expect("accepted");
    assert_eq!(ledger.balances(99), (95, 5));
    assert!(state.finalize_signed_phase(&mut ledger, &AcceptAllDistributions));
    assert_eq!(ledger.balances(99), (107, 0));
    assert!(state.queued_solution().is_some());
}

#[test]
fn bad_solution_is_slashed() {
    let mut state = market_state();
    let mut ledger = ledger_with_mock_balances();
    let mut bad = feasible_solution();
    bad.score.sum_stake += 1;
    state.submit(&mut ledger, &config(), 99, bad).expect("accepted into the queue");
    assert_eq!(ledger.balances(99), (95, 5));
    assert!(!state.finalize_signed_phase(&mut ledger, &AcceptAllDistributions));
    assert_eq!(ledger.balances(99), (95, 0));
    assert!(state.queued_solution().is_none());
}

#[test]
fn suppressed_solution_gets_bond_back() {
    let mut state = market_state();
    let mut ledger = ledger_with_mock_balances();
    // A weaker feasible-looking solution from 999, and the real one from 99.
    let weak = raw_with_score(score(10, 10, 100));
    state.submit(&mut ledger, &config(), 999, weak).expect("accepted");
    state.submit(&mut ledger, &config(), 99, feasible_solution()).expect("accepted");
    assert_eq!(ledger.balances(99), (95, 5));
    assert_eq!(ledger.balances(999), (95, 5));
    assert!(state.finalize_signed_phase(&mut ledger, &AcceptAllDistributions));
    // 99 wins and is rewarded; 999 was never checked and is refunded.
    assert_eq!(ledger.balances(99), (107, 0));
    assert_eq!(ledger.balances(999), (100, 0));
}

#[test]
fn cannot_submit_too_early() {
    let mut state = RoundState::new();
    let mut ledger = ledger_with_mock_balances();
    let r = state.submit(&mut ledger, &config(), 99, feasible_solution());
    assert_eq!(r.unwrap_err(), PalletError::EarlySubmission);
    assert_eq!(ledger.balances(99), (100, 0));
}

#[test]
fn eviction_refunds_the_worst_entry() {
    let mut state = market_state();
    let mut ledger = Ledger::with_balances(vec![(50, 100), (60, 100)]);
    for s in [5u128, 6, 7, 8, 9] {
        state.submit(&mut ledger, &config(), 50, raw_with_score(score(s, 0, 0)))
            .expect("accepted");
    }
    let sums: Vec<u128> =
        state.signed_submissions().iter().map(|e| e.solution.score.sum_stake).collect();
    assert_eq!(sums, vec![5, 6, 7, 8, 9]);
    assert_eq!(ledger.balances(50), (75, 25));
    // A much better solution evicts the worst, whose deposit returns.
    state.submit(&mut ledger, &config(), 60, raw_with_score(score(20, 0, 0)))
        .expect("accepted");
    let sums: Vec<u128> =
        state.signed_submissions().iter().map(|e| e.solution.score.sum_stake).collect();
    assert_eq!(sums, vec![6, 7, 8, 9, 20]);
    assert_eq!(ledger.balances(50), (80, 20));
    assert_eq!(ledger.balances(60), (95, 5));
}

#[test]
fn equal_score_to_a_full_queue_is_rejected() {
    let mut queue = Vec::new();
    let cfg = config();
    for _ in 0..5 {
        let r = insert_submission(&mut queue, &cfg, 50, raw_with_score(score(7, 0, 0)));
        assert!(r.is_some());
    }
    let before = queue.clone();
    let r = insert_submission(&mut queue, &cfg, 60, raw_with_score(score(7, 0, 0)));
    assert!(r.is_none());
    assert_eq!(queue, before);
}

#[test]
fn rejected_submission_leaves_state_untouched() {
    let mut state = market_state();
    let mut ledger = ledger_with_mock_balances();
    for s in [5u128, 6, 7, 8, 9] {
        state.submit(&mut ledger, &config(), 99, raw_with_score(score(s, 0, 0)))
            .expect("accepted");
    }
    let queue_before = state.signed_submissions().clone();
    let balances_before = (ledger.balances(99), ledger.balances(999));
    let r = state.submit(&mut ledger, &config(), 999, raw_with_score(score(4, 0, 0)));
    assert_eq!(r.unwrap_err(), PalletError::QueueFull);
    assert_eq!(*state.signed_submissions(), queue_before);
    assert_eq!((ledger.balances(99), ledger.balances(999)), balances_before);
}

#[test]
fn queue_stays_sorted_under_mixed_insertions() {
    let mut queue = Vec::new();
    let cfg = config();
    for s in [7u128, 3, 9, 1, 5, 8, 2, 6, 4] {
        insert_submission(&mut queue, &cfg, 50, raw_with_score(score(s, 0, 0)));
    }
    let sums: Vec<u128> = queue.iter().map(|e| e.solution.score.sum_stake).collect();
    let mut sorted = sums.clone();
    sorted.sort();
    assert_eq!(sums, sorted);
    assert_eq!(queue.len(), 5);
}

#[test]
fn phase_timing_follows_the_windows() {
    // Market window 10 ticks, automatic window 5, deadlines every 20.
    let prediction = |now: u64| now + 20 - now % 20;
    let mut state = RoundState::new();
    let mut ledger = ledger_with_mock_balances();
    for now in 0u64..16 {
        match phase_transition(state.current_phase(), now, prediction(now), 10, 5) {
            PhaseAction::OpenSigned => state.start_signed_phase(snapshot()),
            PhaseAction::OpenUnsigned => state.open_unsigned_phase(&mut ledger, &AcceptAllDistributions, now),
            PhaseAction::Stay => {},
        }
        let phase = state.current_phase();
        if now < 5 {
            assert_eq!(phase, Phase::Off, "tick {now}");
        } else if now < 15 {
            assert_eq!(phase, Phase::Signed, "tick {now}");
        } else {
            assert!(matches!(phase, Phase::Unsigned(_, 15)), "tick {now}");
        }
    }
    let (_, compute) = state.elect(Some(Vec::new())).expect("the fallback stands in");
    assert_eq!(state.current_phase(), Phase::Off);
    assert_eq!(compute, ElectionCompute::OnChain);
}

#[test]
fn elect_prefers_queued_over_fallback() {
    let mut state = market_state();
    let mut ledger = ledger_with_mock_balances();
    state.submit(&mut ledger, &config(), 99, feasible_solution()).expect("accepted");
    state.open_unsigned_phase(&mut ledger, &AcceptAllDistributions, 15);
    assert_eq!(state.current_phase(), Phase::Unsigned(false, 15));
    let (supports, compute) = state.elect(None).expect("queued solution stands");
    assert_eq!(compute, ElectionCompute::Signed);
    assert_eq!(supports.len(), 2);
    assert_eq!(state.current_phase(), Phase::Off);
}

#[test]
fn dedup_window_blocks_repeats() {
    // The repeat window spans five ticks.
    assert_eq!(OFFCHAIN_REPEAT, 5);
    let mut head: Option<u64> = None;
    let check = |now: u64, head: &mut Option<u64>| -> bool {
        match offchain_window_check(*head, now) {
            Ok(new_head) => {
                *head = Some(new_head);
                true
            },
            Err(()) => false,
        }
    };
    assert!(check(15, &mut head));
    assert!(!check(16, &mut head));
    assert!(check(21, &mut head));
    assert!(!check(18, &mut head));
    assert!(!check(19, &mut head));
    assert!(!check(20, &mut head));
}

#[test]
fn trim_removes_lowest_stake_voters_first() {
    let snap = snapshot();
    let mut c = empty_solution();
    // Winner 10 backed by voters 1 and 4, winner 20 by voter 20, winner 40
    // by voter 40; trimming one voter must drop the lowest stake, voter 1.
    c.buckets[0].push(row(0, vec![], 0));
    c.buckets[0].push(row(3, vec![], 0));
    c.buckets[0].push(row(5, vec![], 1));
    c.buckets[0].push(row(7, vec![], 3));
    let (_, untrimmed_score) = compute_supports_and_score(&c, &snap);
    assert_eq!(untrimmed_score, score(80, 20, 2400));
    let trimmed = trim_compact(3, c, &snap).expect("trim fits");
    assert_eq!(trimmed.len(), 3);
    let kept: Vec<u32> = trimmed.buckets[0].iter().map(|r| r.voter).collect();
    assert_eq!(kept, vec![3, 5, 7]);
    let (_, trimmed_score) = compute_supports_and_score(&trimmed, &snap);
    assert_eq!(trimmed_score, score(70, 10, 2100));
    assert!(trimmed_score.sum_stake <= untrimmed_score.sum_stake);
    assert!(trimmed_score.min_support <= untrimmed_score.min_support);
    assert!(trimmed_score.sum_squared <= untrimmed_score.sum_squared);
}

#[test]
fn maximum_length_respects_the_budget() {
    let model = WeightModel { base: 10, per_voter: 7 };
    let witness = WitnessData { voters: 100, targets: 10 };
    let r = maximum_compact_len(&model, witness, 100);
    // 10 + 7 * r must fit the budget of 100, as tightly as the search gets.
    assert!(10 + 7 * (r as u64) <= 100);
    assert!(r <= witness.voters);
    let all = maximum_compact_len(&model, witness, u64::MAX);
    assert_eq!(all, witness.voters);
}

#[test]
fn balancing_iterations_are_capped() {
    assert_eq!(balancing_iterations(12345, 0), 0);
    assert_eq!(balancing_iterations(12345, 10), 12345 % 11);
    assert!(balancing_iterations(u32::MAX, 7) <= 7);
}

#[test]
fn automatic_submission_needs_open_window_and_improvement() {
    let mut state = market_state();
    let mut ledger = ledger_with_mock_balances();
    // Market produced nothing: the automatic window opens active.
    state.open_unsigned_phase(&mut ledger, &AcceptAllDistributions, 15);
    assert_eq!(state.current_phase(), Phase::Unsigned(true, 15));
    let r = state.submit_unsigned(&config(), &AcceptAllDistributions, &feasible_solution());
    assert!(r.is_ok());
    let ready = state.queued_solution().as_ref().expect("accepted");
    assert_eq!(ready.compute, ElectionCompute::Unsigned);
    // An equal-score resubmission is too weak now.
    let r = state.submit_unsigned(&config(), &AcceptAllDistributions, &feasible_solution());
    assert!(r.is_err());
}

#[test]
fn mined_solutions_pass_their_own_verifier() {
    let snap = snapshot();
    // A solver-shaped assignment set: four single-target voters and one
    // voter splitting its stake across both winners.
    let assignments: Vec<(u64, Vec<(u64, u16)>)> = vec![
        (1, vec![(10, 65535)]),
        (3, vec![(40, 65535)]),
        (10, vec![(10, 65535)]),
        (40, vec![(40, 65535)]),
        (4, vec![(10, 32768), (40, 32767)]),
    ];
    let model = WeightModel { base: 1, per_voter: 1 };
    let witness = WitnessData { voters: 8, targets: 4 };
    let raw = prepare_election_result(&assignments, &snap, &model, witness, 1_000_000)
        .expect("the assignment set converts");
    // Voter 4 contributes floor(32768 * 10 / 65535) = 5 to winner 10 and
    // the remaining 5 to winner 40.
    assert_eq!(raw.score, score(80, 25, 3650));
    let ready = feasibility_check(&snap, &AcceptAllDistributions, &raw, ElectionCompute::Unsigned)
        .expect("a mined claim verifies against the same snapshot");
    assert_eq!(ready.score, raw.score);
}

#[test]
fn priority_follows_claimed_stake() {
    assert_eq!(unsigned_priority(100, score(25, 0, 0)), 125);
    assert_eq!(unsigned_priority(u64::MAX, score(25, 0, 0)), u64::MAX);
    assert_eq!(unsigned_priority(3, score(u128::MAX, 0, 0)), u64::MAX);
}

#[test]
fn conversion_round_trips_through_the_compact_form() {
    let snap = snapshot();
    let assignments: Vec<(u64, Vec<(u64, u16)>)> = vec![
        (1, vec![(10, 65535)]),
        (3, vec![(40, 65535)]),
        (10, vec![(10, 65535)]),
        (40, vec![(40, 65535)]),
        (4, vec![(10, 32768), (40, 32767)]),
    ];
    let compact = from_assignment(&assignments, &snap).expect("the accounts resolve");
    let back = into_assignment(&compact, &snap).expect("the indexes resolve");
    // Every final share here is exactly one unit minus the explicit ones,
    // so the round trip reproduces the input to the letter.
    assert_eq!(back, assignments);
}


#[test]
fn settlement_destroys_all_round_state() {
    let mut state = market_state();
    let mut ledger = ledger_with_mock_balances();
    // Entries still queued at settlement are destroyed with the round.
    state.submit(&mut ledger, &config(), 99, raw_with_score(score(5, 0, 0)))
        .expect("accepted");
    let (_, compute) = state.elect(Some(Vec::new())).expect("fallback stands in");
    assert_eq!(compute, ElectionCompute::OnChain);
    assert_eq!(state.current_phase(), Phase::Off);
    assert_eq!(state.signed_submissions().len(), 0);
    assert!(state.queued_solution().is_none());
}

#[test]
fn maximum_length_is_maximal_for_the_budget() {
    let model = WeightModel { base: 10, per_voter: 7 };
    let witness = WitnessData { voters: 100, targets: 10 };
    let r = maximum_compact_len(&model, witness, 100);
    assert!(10 + 7 * (r as u64) <= 100);
    // One more voter would reach the budget.
    assert!(r == witness.voters || 10 + 7 * (r as u64 + 1) >= 100);
}
