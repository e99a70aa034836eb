//! A two-phase election pipeline: an open, economically staked submission
//! market followed by an automatic fallback window, a bounded and sorted
//! submission queue, a compact binary codec for assignment sets, and a
//! feasibility checker that is the single acceptance gate for solutions.
//!
//! All round state is threaded explicitly through the functions of this
//! crate; nothing here performs storage, network or randomness access.

pub mod types;
pub mod score;
pub mod compact;
pub mod codec;
pub mod ledger;
pub mod signed;
pub mod feasibility;
pub mod unsigned;
pub mod round;
