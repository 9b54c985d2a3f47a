//! Rounding to multiples, with the arithmetic facts the other modules build on.

use vstd::prelude::*;

verus! {

/// The smallest multiple of `divisor` that is at least `value`.
pub open spec fn round_up(value: int, divisor: int) -> int
    recommends
        value >= 0,
        divisor > 0,
{
    if value % divisor == 0 {
        value
    } else {
        value - value % divisor + divisor
    }
}

/// `round_up` is a multiple of the divisor, never below the value and less
/// than one divisor above it.
pub proof fn lemma_round_up(value: int, divisor: int)
    requires
        value >= 0,
        divisor > 0,
    ensures
        round_up(value, divisor) % divisor == 0,
        value <= round_up(value, divisor) < value + divisor,
        round_up(value, divisor) == divisor * ((value + divisor - 1) / divisor),
{
    let r = value % divisor;
    let q = value / divisor;
    assert(value == divisor * q + r && 0 <= r < divisor) by (nonlinear_arith)
        requires
            divisor > 0,
            r == value % divisor,
            q == value / divisor,
    ;
    if r == 0 {
        assert((value + divisor - 1) / divisor == q) by (nonlinear_arith)
            requires
                divisor > 0,
                value == divisor * q,
        ;
    } else {
        assert((value - r + divisor) % divisor == 0 && (value + divisor - 1) / divisor == q + 1
            && value - r + divisor == divisor * (q + 1)) by (nonlinear_arith)
            requires
                divisor > 0,
                value == divisor * q + r,
                0 < r < divisor,
        ;
    }
}

/// No multiple of the divisor lies between the value and `round_up` of it.
pub proof fn lemma_round_up_is_least(value: int, divisor: int, m: int)
    requires
        value >= 0,
        divisor > 0,
        m % divisor == 0,
        value <= m,
    ensures
        round_up(value, divisor) <= m,
{
    lemma_round_up(value, divisor);
    let up = round_up(value, divisor);
    if m < up {
        assert(false) by (nonlinear_arith)
            requires
                divisor > 0,
                m % divisor == 0,
                up % divisor == 0,
                m < up < m + divisor,
        ;
    }
}

/// Rounds `value` up to the next multiple of `divisor`.
pub fn make_divisible_by(value: usize, divisor: usize) -> (rounded: usize)
    requires
        divisor > 0,
        round_up(value as int, divisor as int) <= usize::MAX,
    ensures
        rounded == round_up(value as int, divisor as int),
        rounded % divisor == 0,
        value <= rounded < value + divisor,
        value % divisor == 0 ==> rounded == value,
        value == 0 ==> rounded == 0,
{
    proof {
        lemma_round_up(value as int, divisor as int);
        assert(value as int % divisor as int <= value) by (nonlinear_arith)
            requires
                divisor > 0,
                value >= 0,
        ;
    }
    let rest: usize = value % divisor;
    if rest == 0 {
        value
    } else {
        value - rest + divisor
    }
}

} // verus!
