//! The crossing detector: a crossing is seen where the sign of the sensing
//! signal stands above the sign of its biased previous value, unless a
//! random draw suppresses it.

use vstd::prelude::*;

verus! {

/// The sign of a sensing value.
#[derive(Clone, Copy, Debug, PartialEq, Eq, Structural)]
pub enum Sign {
    Negative,
    Zero,
    Positive,
}

impl Sign {
    /// The sign as a number: -1, 0 or 1.
    pub open spec fn value(self) -> int {
        match self {
            Sign::Negative => -1,
            Sign::Zero => 0,
            Sign::Positive => 1,
        }
    }
}

/// The sign of a number.
pub open spec fn sign_of(x: int) -> Sign {
    if x < 0 {
        Sign::Negative
    } else if x == 0 {
        Sign::Zero
    } else {
        Sign::Positive
    }
}

/// A crossing: the sign now is strictly above the sign of the reference.
pub open spec fn crosses(now: Sign, reference: Sign) -> bool {
    now.value() > reference.value()
}

/// A draw suppresses a detection when it falls below the threshold, which
/// happens for `threshold` of the 2^64 possible draws.
pub open spec fn suppresses(draw: u64, threshold: u64) -> bool {
    draw < threshold
}

/// Whether a crossing is detected: the signs cross and the draw does not
/// suppress it.
pub open spec fn detects(now: Sign, reference: Sign, draw: u64, threshold: u64) -> bool {
    crosses(now, reference) && !suppresses(draw, threshold)
}

/// Tells whether the sign of the sensing value stands above that of the
/// reference.
pub fn crossing(now: Sign, reference: Sign) -> (crossed: bool)
    ensures
        crossed == crosses(now, reference),
{
    match (now, reference) {
        (Sign::Zero, Sign::Negative) => true,
        (Sign::Positive, Sign::Negative) => true,
        (Sign::Positive, Sign::Zero) => true,
        _ => false,
    }
}

/// Decides one sample: a crossing counts unless `draw` is below
/// `threshold`.
pub fn detect(now: Sign, reference: Sign, draw: u64, threshold: u64) -> (detected: bool)
    ensures
        detected == detects(now, reference, draw, threshold),
{
    let mut detected = crossing(now, reference);
    if draw < threshold {
        detected = false;
    }
    detected
}

/// A larger number never has a smaller sign.
pub proof fn lemma_sign_monotonic(low: int, high: int)
    requires
        low <= high,
    ensures
        sign_of(low).value() <= sign_of(high).value(),
{
}

/// Raising the bias never adds a detection: whatever sensing value crosses
/// the reference under the higher bias crosses it under the lower one too.
pub proof fn lemma_bias_monotonic(now: int, previous: int, step: int, low: int, high: int)
    requires
        low <= high,
    ensures
        crosses(sign_of(now), sign_of(previous + step + high)) ==> crosses(
            sign_of(now),
            sign_of(previous + step + low),
        ),
{
}

/// Where raising the bias lifts the sign of the reference, it takes a
/// detection away: some sign crosses the lower reference and not the higher.
pub proof fn lemma_bias_strict(low: Sign, high: Sign)
    requires
        low.value() < high.value(),
    ensures
        exists|now: Sign| crosses(now, low) && !crosses(now, high),
{
    assert(crosses(high, low) && !crosses(high, high));
}

/// A threshold of zero suppresses nothing, and a higher threshold suppresses
/// every draw that a lower one does.
pub proof fn lemma_suppression_grows(draw: u64, low: u64, high: u64)
    requires
        low <= high,
    ensures
        !suppresses(draw, 0),
        suppresses(draw, low) ==> suppresses(draw, high),
{
}

/// The draws that a threshold suppresses.
pub open spec fn suppressed_draws(threshold: u64) -> Set<u64> {
    Set::new(|bits: u64| suppresses(bits, threshold))
}

/// Of the 2^64 possible draws exactly `threshold` are suppressed, so a
/// uniform draw is suppressed with probability `threshold / 2^64`.
pub proof fn lemma_suppression_count(threshold: u64)
    ensures
        suppressed_draws(threshold).finite(),
        suppressed_draws(threshold).len() == threshold,
    decreases threshold,
{
    if threshold == 0 {
        assert(suppressed_draws(threshold) =~= Set::<u64>::empty());
    } else {
        let below = (threshold - 1) as u64;
        lemma_suppression_count(below);
        assert(suppressed_draws(threshold) =~= suppressed_draws(below).insert(below));
    }
}

} // verus!
