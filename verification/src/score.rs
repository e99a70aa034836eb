//! Ranking of election scores: lexicographic comparison of the three score
//! components, each sharpened by a relative improvement threshold.

use vstd::prelude::*;
use crate::types::ElectionScore;

verus! {

/// Parts of a whole improvement threshold: a threshold of `parts` means
/// `parts / THRESHOLD_ACCURACY` relative improvement.
pub const THRESHOLD_ACCURACY: u32 = 1_000_000_000;

/// The least margin by which a challenger must exceed `x` under a relative
/// threshold of `parts / THRESHOLD_ACCURACY`: the product `parts * x`
/// divided by the accuracy, rounded up.
pub open spec fn threshold_margin(parts: u32, x: u128) -> int {
    parts * (x as int / THRESHOLD_ACCURACY as int)
        + (parts * (x as int % THRESHOLD_ACCURACY as int) + THRESHOLD_ACCURACY - 1)
            / THRESHOLD_ACCURACY as int
}

/// One component exceeds another by more than the improvement margin.
pub open spec fn exceeds_by_margin(this: u128, that: u128, parts: u32) -> bool {
    this > that + threshold_margin(parts, that)
}

/// One component falls short of another by more than the improvement
/// margin, which is still measured on the incumbent's component.
pub open spec fn trails_by_margin(this: u128, that: u128, parts: u32) -> bool {
    that > this + threshold_margin(parts, that)
}

/// `this` is better than `that` by more than the threshold: the components
/// are compared in order (total stake, minimal backing, sum of squares).
/// More total stake and more minimal backing are better; a smaller sum of
/// squares is better. The first component must exceed by the margin, or
/// hold its ground while a later one improves by the margin.
pub open spec fn score_better_by(this: ElectionScore, that: ElectionScore, parts: u32) -> bool {
    ||| exceeds_by_margin(this.sum_stake, that.sum_stake, parts)
    ||| (this.sum_stake >= that.sum_stake
        && exceeds_by_margin(this.min_support, that.min_support, parts))
    ||| (this.sum_stake >= that.sum_stake && this.min_support >= that.min_support
        && trails_by_margin(this.sum_squared, that.sum_squared, parts))
}

/// The executable margin under a relative threshold of
/// `parts / THRESHOLD_ACCURACY`.
fn compute_margin(parts: u32, x: u128) -> (m: u128)
    requires
        parts <= THRESHOLD_ACCURACY,
    ensures
        m == threshold_margin(parts, x),
        m <= x,
{
    let b: u128 = THRESHOLD_ACCURACY as u128;
    let q: u128 = x / b;
    let r: u128 = x % b;
    proof {
        assert(x == b * q + r && r < b) by {
            vstd::arithmetic::div_mod::lemma_fundamental_div_mod(x as int, b as int);
        }
        assert(parts * q <= b * q) by (nonlinear_arith)
            requires parts <= b, 0 <= q,
        {}
        assert(parts * r <= b * r && b * r < b * b) by (nonlinear_arith)
            requires parts <= b, 0 <= r < b,
        {}
        assert((parts * r + b - 1) / (b as int) <= r) by (nonlinear_arith)
            requires parts * r <= b * r, b > 1, 0 <= r,
        {}
    }
    let head: u128 = parts as u128 * q;
    let tail: u128 = (parts as u128 * r + b - 1) / b;
    head + tail
}

/// One component compared with another under the improvement margin:
/// true exactly when `this` exceeds `that` by more than the margin.
fn component_exceeds(this: u128, that: u128, parts: u32) -> (r: bool)
    requires
        parts <= THRESHOLD_ACCURACY,
    ensures
        r == exceeds_by_margin(this, that, parts),
{
    let m = compute_margin(parts, that);
    match that.checked_add(m) {
        Some(bar) => this > bar,
        None => false,
    }
}

/// One component compared with another under the improvement margin:
/// true exactly when `this` falls short of `that` by more than the
/// margin on `that`.
fn component_trails(this: u128, that: u128, parts: u32) -> (r: bool)
    requires
        parts <= THRESHOLD_ACCURACY,
    ensures
        r == trails_by_margin(this, that, parts),
{
    let m = compute_margin(parts, that);
    match this.checked_add(m) {
        Some(bar) => that > bar,
        None => false,
    }
}

/// Whether `this` score beats `that` by more than the relative improvement
/// threshold of `threshold_parts / THRESHOLD_ACCURACY`.
pub fn is_score_better(this: ElectionScore, that: ElectionScore, threshold_parts: u32) -> (r: bool)
    requires
        threshold_parts <= THRESHOLD_ACCURACY,
    ensures
        r == score_better_by(this, that, threshold_parts),
{
    if component_exceeds(this.sum_stake, that.sum_stake, threshold_parts) {
        true
    } else if this.sum_stake >= that.sum_stake
        && component_exceeds(this.min_support, that.min_support, threshold_parts) {
        true
    } else if this.sum_stake >= that.sum_stake && this.min_support >= that.min_support
        && component_trails(this.sum_squared, that.sum_squared, threshold_parts) {
        true
    } else {
        false
    }
}

/// The margin is never negative.
pub proof fn lemma_margin_nonnegative(parts: u32, x: u128)
    ensures
        threshold_margin(parts, x) >= 0,
{
}

/// A score equal to another is never an improvement over it, whatever the
/// threshold: ties never displace a stored solution.
pub proof fn lemma_equal_score_is_no_improvement(s: ElectionScore, parts: u32)
    ensures
        !score_better_by(s, s, parts),
{
    lemma_margin_nonnegative(parts, s.sum_stake);
    lemma_margin_nonnegative(parts, s.min_support);
    lemma_margin_nonnegative(parts, s.sum_squared);
}

/// Being better by a threshold is asymmetric: two scores can never each be
/// an improvement over the other.
pub proof fn lemma_score_better_asymmetric(a: ElectionScore, b: ElectionScore, parts: u32)
    ensures
        !(score_better_by(a, b, parts) && score_better_by(b, a, parts)),
{
    lemma_margin_nonnegative(parts, a.sum_stake);
    lemma_margin_nonnegative(parts, a.min_support);
    lemma_margin_nonnegative(parts, a.sum_squared);
    lemma_margin_nonnegative(parts, b.sum_stake);
    lemma_margin_nonnegative(parts, b.min_support);
    lemma_margin_nonnegative(parts, b.sum_squared);
}

} // verus!
