//! Fixed-point amounts with eighteen decimal places, held by their count of
//! attos (10^-18). The arithmetic is that of scrypto's `Decimal`.
use vstd::prelude::*;
use scrypto::prelude::Decimal;
use scrypto::prelude::I192;

verus! {

/// One whole unit, in attos.
pub const ONE: i128 = 1_000_000_000_000_000_000;

/// Product of two decimals, truncated to eighteen decimal places
/// (a floor for the non-negative operands used here).
pub open spec fn spec_mul(a: int, b: int) -> int {
    a * b / (ONE as int)
}

/// Quotient of two decimals, truncated to eighteen decimal places
/// (a floor for the non-negative operands used here).
pub open spec fn spec_div(a: int, b: int) -> int {
    a * (ONE as int) / b
}

/// The largest whole number not above a non-negative decimal, in attos.
pub open spec fn spec_floor(a: int) -> int {
    a - a % (ONE as int)
}

/// A product of an amount and a rate, both bounded, fits the atto range.
pub proof fn lemma_spec_mul_bound(a: int, b: int)
    requires
        0 <= a <= 100_000_000_000_000_000_000_000_000_000_000,
        0 <= b <= 1_000_000_000_000_000_000_000_000,
    ensures
        0 <= spec_mul(a, b) <= 100_000_000_000_000_000_000_000_000_000_000_000_000,
{
    assert(0 <= a * b <= 100_000_000_000_000_000_000_000_000_000_000 * 1_000_000_000_000_000_000_000_000) by (nonlinear_arith)
        requires 0 <= a <= 100_000_000_000_000_000_000_000_000_000_000, 0 <= b <= 1_000_000_000_000_000_000_000_000;
    vstd::arithmetic::div_mod::lemma_div_is_ordered(a * b, 100_000_000_000_000_000_000_000_000_000_000int * 1_000_000_000_000_000_000_000_000int, ONE as int);
    vstd::arithmetic::div_mod::lemma_div_pos_is_pos(a * b, ONE as int);
}

/// `Decimal * Decimal` of scrypto: the product of the atto counts, divided by
/// 10^18 with truncation toward zero (a floor here, both factors being
/// non-negative). The contract claims that the call returns that value; the
/// bound keeps the result within the atto range held here.
#[verifier::external_body]
pub(crate) fn decimal_mul(a: i128, b: i128) -> (r: i128)
    requires
        0 <= a,
        0 <= b,
        spec_mul(a as int, b as int) <= i128::MAX,
    ensures
        r == spec_mul(a as int, b as int),
{
    let product = Decimal::from_attos(I192::from(a)) * Decimal::from_attos(I192::from(b));
    i128::try_from(product.attos()).unwrap()
}

/// `Decimal / Decimal` of scrypto: the dividend's atto count times 10^18,
/// divided by the divisor's atto count with truncation toward zero (a floor
/// here, the dividend being non-negative and the divisor positive). The
/// contract claims that the call returns that value; the bound keeps the
/// result within the atto range held here.
#[verifier::external_body]
pub(crate) fn decimal_div(a: i128, b: i128) -> (r: i128)
    requires
        0 <= a,
        0 < b,
        spec_div(a as int, b as int) <= i128::MAX,
    ensures
        r == spec_div(a as int, b as int),
{
    let quotient = Decimal::from_attos(I192::from(a)) / Decimal::from_attos(I192::from(b));
    i128::try_from(quotient.attos()).unwrap()
}

/// The whole part of a non-negative decimal, in attos: what scrypto's
/// `Decimal::checked_floor` gives, rounding toward negative infinity.
pub(crate) fn decimal_floor(a: i128) -> (r: i128)
    requires
        0 <= a,
    ensures
        r == spec_floor(a as int),
{
    a - a % ONE
}

} // verus!
