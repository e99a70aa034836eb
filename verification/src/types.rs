//! The data model of a round: phases, scores, solutions, submissions and the
//! error taxonomies.

use vstd::prelude::*;
use crate::compact::CompactSolution;

verus! {

/// A phase of one election round.
///
/// Exactly one phase is active at a time. Transitions are driven only by
/// elapsed-time-to-deadline comparisons, except for the final return to
/// `Off`, which round settlement triggers explicitly.
#[derive(Clone, Copy, PartialEq, Eq, Structural, Debug)]
pub enum Phase {
    /// Nothing: the election is not happening.
    Off,
    /// The open submission market is accepting signed submissions.
    Signed,
    /// The automatic window. The flag says whether the window is open for
    /// unsigned submissions (the market produced no accepted solution); the
    /// number is the tick at which the window opened.
    Unsigned(bool, u64),
}

impl Phase {
    /// Whether the open market window is active.
    pub fn is_signed(&self) -> (r: bool)
        ensures
            r == (*self is Signed),
    {
        match self {
            Phase::Signed => true,
            _ => false,
        }
    }

    /// Whether the automatic window is active, open for submissions or not.
    pub fn is_unsigned(&self) -> (r: bool)
        ensures
            r == (*self is Unsigned),
    {
        match self {
            Phase::Unsigned(_, _) => true,
            _ => false,
        }
    }

    /// Whether the automatic window is active, open for submissions, and was
    /// opened exactly at tick `at`.
    pub fn is_unsigned_open_at(&self, at: u64) -> (r: bool)
        ensures
            r == (*self matches Phase::Unsigned(open, since) && open && since == at),
    {
        match self {
            Phase::Unsigned(true, since) => *since == at,
            _ => false,
        }
    }

    /// Whether the automatic window is active and open for submissions.
    pub fn is_unsigned_open(&self) -> (r: bool)
        ensures
            r == (*self matches Phase::Unsigned(open, _) && open),
    {
        match self {
            Phase::Unsigned(true, _) => true,
            _ => false,
        }
    }

    /// Whether no election is happening.
    pub fn is_off(&self) -> (r: bool)
        ensures
            r == (*self is Off),
    {
        match self {
            Phase::Off => true,
            _ => false,
        }
    }
}

/// Which computation produced an accepted solution.
#[derive(Clone, Copy, PartialEq, Eq, Structural, Debug)]
pub enum ElectionCompute {
    /// Computed by the on-chain fallback solver at settlement.
    OnChain,
    /// Computed by a staked market submission.
    Signed,
    /// Computed by an automatic (unsigned) submission.
    Unsigned,
}

/// The three-part objective value that ranks competing solutions: the total
/// backing stake of all winners, the minimal backing of any single winner,
/// and the sum of the squared backings.
#[derive(Clone, Copy, PartialEq, Eq, Structural, Debug)]
pub struct ElectionScore {
    /// Total backing stake over all winners.
    pub sum_stake: u128,
    /// The least backing that any single winner has.
    pub min_support: u128,
    /// Sum of the squared backings, one square per winner.
    pub sum_squared: u128,
}

/// An untrusted candidate solution: a compact assignment set together with
/// its claimed score. Nothing of it is believed until it passes the
/// feasibility check.
#[derive(Clone, PartialEq, Eq, Debug)]
pub struct RawSolution {
    /// Compact election edges.
    pub compact: CompactSolution,
    /// The claimed score of the solution.
    pub score: ElectionScore,
}

/// A staked entry of the market queue.
#[derive(Clone, PartialEq, Eq, Debug)]
pub struct SignedSubmission {
    /// Who submitted this solution.
    pub who: u64,
    /// The deposit reserved for storing this solution.
    pub deposit: u64,
    /// The reward owed if this solution is chosen as the final one.
    pub reward: u64,
    /// The raw solution itself.
    pub solution: RawSolution,
}

/// The backing of one winner: the total stake behind it and each backer's
/// individual contribution.
#[derive(Clone, PartialEq, Eq, Debug)]
pub struct Support {
    /// Total stake backing this winner.
    pub total: u128,
    /// Each backing voter and the stake it contributes.
    pub voters: Vec<(u64, u128)>,
}

/// The accepted output of a round: per-winner supports, the verified
/// score, and which computation produced it.
#[derive(Clone, PartialEq, Eq, Debug)]
pub struct ReadySolution {
    /// Winner-major backing: each winner with its support.
    pub supports: Vec<(u64, Support)>,
    /// The score of the solution.
    pub score: ElectionScore,
    /// How this election was computed.
    pub compute: ElectionCompute,
}

/// A caller-supplied size hint: how many voters and targets the snapshot
/// holds. Used only to bound the cost of trimming, never for correctness.
#[derive(Clone, Copy, PartialEq, Eq, Structural, Debug, Default)]
pub struct WitnessData {
    /// Number of all voters.
    pub voters: u32,
    /// Number of all targets.
    pub targets: u32,
}

/// An internal error of the assignment/compact machinery.
#[derive(Clone, Copy, PartialEq, Eq, Structural, Debug)]
pub enum ElectionError {
    /// The cumulative explicit share of one voter reached or passed one
    /// whole unit, so no implicit last share remains.
    CompactStakeOverflow,
    /// A voter or target index did not resolve against the snapshot.
    InvalidIndex,
    /// A distribution has more targets than the largest supported fan-out.
    TooManyTargets,
}

/// Errors that the feasibility check can return.
#[derive(Clone, Copy, PartialEq, Eq, Structural, Debug)]
pub enum FeasibilityError {
    /// Wrong number of winners presented.
    WrongWinnerCount,
    /// The snapshot is not available; an internal error of the host.
    SnapshotUnavailable,
    /// Internal error while decoding the assignments.
    NposElectionError(ElectionError),
    /// A vote referenced a target outside the voter's nomination list.
    InvalidVote,
    /// A voter index did not resolve against the snapshot.
    InvalidVoter,
    /// A winner index did not resolve against the snapshot.
    InvalidWinner,
    /// The claimed score differs from the recomputed one.
    InvalidScore,
}

/// User-facing submission errors, recovered at the call boundary.
#[derive(Clone, Copy, PartialEq, Eq, Structural, Debug)]
pub enum PalletError {
    /// Submission came while the required phase was not open.
    EarlySubmission,
    /// Submission was too weak, score-wise.
    WeakSubmission,
    /// The queue was full and the solution improved on none of the stored
    /// ones.
    QueueFull,
    /// The submitter cannot pay the required deposit.
    CannotPayDeposit,
}

/// Internal and infrastructural errors of a whole round.
#[derive(Clone, Copy, PartialEq, Eq, Structural, Debug)]
pub enum Error {
    /// A feasibility error.
    Feasibility(FeasibilityError),
    /// An error in the on-chain fallback.
    OnChainFallback,
    /// An internal error of the assignment machinery.
    NposElections(ElectionError),
    /// A submission refused at the call boundary.
    Submission(PalletError),
    /// Snapshot data was unavailable unexpectedly.
    SnapshotUnAvailable,
    /// Submitting a mined solution to the pool failed.
    PoolSubmissionFailed,
}

} // verus!
