//! The price of one fill: how many LSUs a position takes and how much XRD it pays.
use vstd::prelude::*;
use crate::decimal::{decimal_div, decimal_mul, spec_div, spec_mul, ONE};

verus! {

/// Bound on a redemption rate, in attos of XRD per LSU (10^6 XRD per LSU).
/// Amounts are held as `i128` atto counts; this bound and `AMOUNT_CAP` keep
/// every product of an amount and a rate within that range. An LSU's
/// redemption value stays near one XRD, far below the bound.
pub const RATE_CAP: i128 = 1_000_000_000_000_000_000_000_000;

/// Bound on amounts of XRD and LSUs, in attos (10^14 whole units), under
/// which every product of an amount and a rate fits the atto range. It lies
/// above the whole XRD supply (24 * 10^9 XRD at most), so no real amount
/// reaches it.
pub const AMOUNT_CAP: i128 = 100_000_000_000_000_000_000_000_000_000_000;

/// One fill of a position: the LSUs it takes, the XRD it pays, and the XRD
/// it has left. The seller's remaining LSUs are worth
/// `remaining * rate` XRD, and `(1 - discount)` of that at the position's
/// discount; if the position has that much it takes all the LSUs, else it
/// pays all it has for the same share of the LSUs.
pub open spec fn fill_step(remaining: int, rate: int, discount: int, available: int) -> (int, int, int) {
    let remaining_value = spec_mul(remaining, rate);
    let discounted_value = spec_mul(remaining_value, ONE - discount);
    if discounted_value <= available {
        (remaining, discounted_value, available - discounted_value)
    } else {
        let lsu_ratio = spec_div(available, discounted_value);
        (spec_mul(remaining, lsu_ratio), available, 0)
    }
}

proof fn lemma_mul_le(a: int, b: int, c: int, d: int)
    requires
        0 <= a <= c,
        0 <= b <= d,
    ensures
        0 <= spec_mul(a, b) <= spec_mul(c, d),
{
    assert(0 <= a * b <= c * d) by (nonlinear_arith)
        requires 0 <= a <= c, 0 <= b <= d;
    vstd::arithmetic::div_mod::lemma_div_is_ordered(a * b, c * d, ONE as int);
    vstd::arithmetic::div_mod::lemma_div_pos_is_pos(a * b, ONE as int);
}

/// Computes one fill (see `fill_step`).
pub fn compute_fill(remaining: i128, rate: i128, discount: i128, available: i128) -> (r: (i128, i128, i128))
    requires
        0 <= remaining <= AMOUNT_CAP,
        0 <= rate <= RATE_CAP,
        0 <= discount <= ONE,
        0 <= available,
    ensures
        (r.0 as int, r.1 as int, r.2 as int) == fill_step(remaining as int, rate as int, discount as int, available as int),
        0 <= r.0 <= remaining,
        0 <= r.1 <= available,
        r.2 == available - r.1,
{
    proof {
        lemma_mul_le(remaining as int, rate as int, AMOUNT_CAP as int, RATE_CAP as int);
        assert(spec_mul(AMOUNT_CAP as int, RATE_CAP as int) == 100_000_000_000_000_000_000_000_000_000_000_000_000int);
    }
    let remaining_value = decimal_mul(remaining, rate);
    proof {
        lemma_mul_le(remaining_value as int, (ONE - discount) as int, remaining_value as int, ONE as int);
        vstd::arithmetic::div_mod::lemma_div_by_multiple(remaining_value as int, ONE as int);
    }
    let discounted_value = decimal_mul(remaining_value, ONE - discount);
    if discounted_value <= available {
        (remaining, discounted_value, available - discounted_value)
    } else {
        proof {
            assert(0 <= (available as int) * ONE < (discounted_value as int) * ONE) by (nonlinear_arith)
                requires 0 <= available < discounted_value;
            vstd::arithmetic::div_mod::lemma_div_is_ordered((available as int) * ONE, (discounted_value as int) * ONE, discounted_value as int);
            vstd::arithmetic::div_mod::lemma_div_by_multiple(ONE as int, discounted_value as int);
            assert((discounted_value as int) * ONE == (ONE as int) * discounted_value) by (nonlinear_arith);
            vstd::arithmetic::div_mod::lemma_div_pos_is_pos((available as int) * ONE, discounted_value as int);
        }
        let lsu_ratio = decimal_div(available, discounted_value);
        proof {
            lemma_mul_le(remaining as int, lsu_ratio as int, remaining as int, ONE as int);
            vstd::arithmetic::div_mod::lemma_div_by_multiple(remaining as int, ONE as int);
        }
        let lsu_take = decimal_mul(remaining, lsu_ratio);
        (lsu_take, available, 0)
    }
}

} // verus!
