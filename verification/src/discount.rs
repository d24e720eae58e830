//! Supported discounts: 0% to 5% in steps of 0.025%.
use vstd::prelude::*;
use crate::decimal::{decimal_div, decimal_floor, decimal_mul, spec_div, spec_floor, spec_mul, ONE};

verus! {

/// 0.025% in attos.
pub const DISCOUNT_STEP: i128 = 250_000_000_000_000;

/// Number of discount levels: 0, 1, ..., 200 steps.
pub const DISCOUNT_LEVELS: usize = 201;

/// 0.01% in attos.
pub open spec fn basis_point() -> int {
    100_000_000_000_000
}

/// A discount that the pool supports: a whole number of steps from 0% to 5%.
pub open spec fn supported_discount(d: int) -> bool {
    0 <= d <= 200 * (DISCOUNT_STEP as int) && d % (DISCOUNT_STEP as int) == 0
}

/// The level of a discount: its number of steps.
pub open spec fn discount_level(d: int) -> int {
    d / (DISCOUNT_STEP as int)
}

/// A discount in whole basis points, rounded down.
pub open spec fn discount_bp(d: int) -> int {
    d / basis_point()
}

proof fn lemma_supported_steps(d: int)
    requires
        supported_discount(d),
    ensures
        d == discount_level(d) * (DISCOUNT_STEP as int),
        0 <= discount_level(d) <= 200,
{
    vstd::arithmetic::div_mod::lemma_fundamental_div_mod(d, DISCOUNT_STEP as int);
}

/// `floor(discount * 10000)` as an integer: the discount in basis points.
pub fn discount_basis_points(discount: i128) -> (r: u64)
    requires
        supported_discount(discount as int),
    ensures
        r == discount_bp(discount as int),
        r <= 500,
{
    proof { lemma_supported_steps(discount as int); }
    let lvl: Ghost<int> = Ghost(discount_level(discount as int));
    assert(spec_mul(discount as int, 10000 * ONE) == (discount as int) * 10000) by (nonlinear_arith)
        requires
            discount as int == lvl@ * (DISCOUNT_STEP as int),
            0 <= lvl@ <= 200,
    {
        assert((discount as int) * (10000 * ONE) == ((discount as int) * 10000) * ONE);
    }
    let scaled = decimal_mul(discount, 10000 * ONE);
    let floored = decimal_floor(scaled);
    assert(spec_floor(scaled as int) / (ONE as int) == (scaled as int) / (ONE as int)) by (nonlinear_arith)
        requires
            scaled >= 0,
    {
        vstd::arithmetic::div_mod::lemma_fundamental_div_mod(scaled as int, ONE as int);
    }
    assert(((discount as int) * 10000) / (ONE as int) == (discount as int) / basis_point()) by (nonlinear_arith)
        requires
            discount >= 0,
    {
        vstd::arithmetic::div_mod::lemma_div_multiples_vanish_quotient(10000, discount as int, basis_point());
    }
    assert((discount as int) / basis_point() <= 500) by (nonlinear_arith)
        requires
            discount as int == lvl@ * (DISCOUNT_STEP as int),
            0 <= lvl@ <= 200,
    {}
    (floored / ONE) as u64
}

/// `floor(discount / 0.00025)` as an integer: the level of a discount.
pub fn discount_index(discount: i128) -> (r: usize)
    requires
        supported_discount(discount as int),
    ensures
        r == discount_level(discount as int),
        r < DISCOUNT_LEVELS,
{
    proof { lemma_supported_steps(discount as int); }
    let lvl: Ghost<int> = Ghost(discount_level(discount as int));
    assert(spec_div(discount as int, DISCOUNT_STEP as int) == lvl@ * ONE) by (nonlinear_arith)
        requires
            discount as int == lvl@ * (DISCOUNT_STEP as int),
            0 <= lvl@ <= 200,
    {
        assert((discount as int) * ONE == (lvl@ * ONE) * (DISCOUNT_STEP as int));
        vstd::arithmetic::div_mod::lemma_div_by_multiple(lvl@ * ONE, DISCOUNT_STEP as int);
    }
    let ratio = decimal_div(discount, DISCOUNT_STEP);
    let floored = decimal_floor(ratio);
    assert(spec_floor(ratio as int) == ratio) by (nonlinear_arith)
        requires
            ratio as int == lvl@ * ONE,
            0 <= lvl@,
    {
        vstd::arithmetic::div_mod::lemma_mod_multiples_basic(lvl@, ONE as int);
    }
    assert(floored / ONE == lvl@) by (nonlinear_arith)
        requires
            floored as int == lvl@ * ONE,
            0 <= lvl@,
    {
        vstd::arithmetic::div_mod::lemma_div_by_multiple(lvl@, ONE as int);
    }
    (floored / ONE) as usize
}

} // verus!
