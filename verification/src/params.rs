//! Operating parameters as whole numbers: the division count and the
//! latency cap.

use vstd::arithmetic::div_mod::lemma_fundamental_div_mod;
use vstd::prelude::*;

verus! {

/// The number of segment buffers per channel.
pub const SEGMENTS: usize = 12;

/// The divisor of the sample rate that gives the latency cap: one cycle at
/// 20 Hz.
pub const LOWEST_AUDIBLE_HZ: usize = 20;

/// The division count for a raw count: the raw count held within 1 and the
/// number of segment buffers.
pub open spec fn segment_count(raw: nat) -> nat {
    if raw < 1 {
        1
    } else if raw > SEGMENTS {
        SEGMENTS as nat
    } else {
        raw
    }
}

/// The latency cap for a sample rate: the least number of samples that
/// spans one cycle at 20 Hz.
pub open spec fn cap_of(sample_rate: nat) -> nat {
    (sample_rate + 19) / 20
}

/// Holds a raw division count within the range for which segment buffers
/// exist.
pub fn division_count(raw: usize) -> (count: usize)
    ensures
        count == segment_count(raw as nat),
        1 <= count <= SEGMENTS,
{
    if raw < 1 {
        1
    } else if raw > SEGMENTS {
        SEGMENTS
    } else {
        raw
    }
}

/// The most samples the output queue keeps after a flush, for a sample rate
/// in whole samples per second.
pub fn latency_cap(sample_rate: usize) -> (cap: usize)
    ensures
        cap == cap_of(sample_rate as nat),
{
    let whole: usize = sample_rate / LOWEST_AUDIBLE_HZ;
    if sample_rate % LOWEST_AUDIBLE_HZ == 0 {
        whole
    } else {
        whole + 1
    }
}

/// The latency cap is the sample rate over 20, rounded up: 20 times the cap
/// reaches the sample rate, and no smaller number does.
pub proof fn lemma_cap_is_ceiling(sample_rate: nat, count: nat)
    ensures
        20 * cap_of(sample_rate) >= sample_rate,
        20 * count >= sample_rate ==> count >= cap_of(sample_rate),
{
}

/// A fraction rounded up to the next whole number.
pub open spec fn rounded_up(numerator: nat, denominator: nat) -> nat {
    (numerator + denominator - 1) as nat / denominator
}

/// `rounded_up` is the least whole number that reaches the fraction.
pub proof fn lemma_rounded_up(numerator: nat, denominator: nat, count: nat)
    requires
        denominator > 0,
    ensures
        rounded_up(numerator, denominator) * denominator >= numerator,
        count * denominator >= numerator ==> count >= rounded_up(numerator, denominator),
{
    let x = (numerator + denominator - 1) as int;
    let d = denominator as int;
    let c = x / d;
    lemma_fundamental_div_mod(x, d);
    assert(c * d >= numerator) by (nonlinear_arith)
        requires
            x == d * c + x % d,
            x % d <= d - 1,
            x == numerator + d - 1,
    ;
    if count * denominator >= numerator {
        assert(count >= c) by (nonlinear_arith)
            requires
                x == d * c + x % d,
                0 <= x % d,
                x == numerator + d - 1,
                count * d >= numerator,
                d > 0,
        ;
    }
}

/// For a sample rate that is a fraction, the latency cap of the rate rounded
/// up is the cap of the rate itself: a twentieth of it, rounded up.
pub proof fn lemma_cap_of_fraction(numerator: nat, denominator: nat)
    requires
        denominator > 0,
    ensures
        cap_of(rounded_up(numerator, denominator)) == rounded_up(numerator, 20 * denominator),
{
    let rate = rounded_up(numerator, denominator);
    let cap = cap_of(rate);
    let direct = rounded_up(numerator, 20 * denominator);
    lemma_cap_is_ceiling(rate, direct);
    lemma_rounded_up(numerator, denominator, 20 * direct);
    lemma_rounded_up(numerator, 20 * denominator, cap);
    assert(direct * (20 * denominator) == (20 * direct) * denominator) by (nonlinear_arith);
    assert(cap * (20 * denominator) >= numerator) by (nonlinear_arith)
        requires
            20 * cap >= rate,
            rate * denominator >= numerator,
    ;
}

} // verus!
