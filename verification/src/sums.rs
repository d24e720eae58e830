//! Sums over the receipt identifiers below a bound.
use vstd::prelude::*;

verus! {

/// `f(0) + f(1) + ... + f(n - 1)`.
pub open spec fn sum_below(f: spec_fn(u64) -> int, n: nat) -> int
    decreases n,
{
    if n == 0 {
        0
    } else {
        sum_below(f, (n - 1) as nat) + f((n - 1) as u64)
    }
}

/// Sums of functions that agree below `n` are equal.
pub proof fn lemma_sum_agree(f: spec_fn(u64) -> int, g: spec_fn(u64) -> int, n: nat)
    requires
        n <= u64::MAX as nat + 1,
        forall|i: u64| (i as nat) < n ==> #[trigger] f(i) == g(i),
    ensures
        sum_below(f, n) == sum_below(g, n),
    decreases n,
{
    if n > 0 {
        lemma_sum_agree(f, g, (n - 1) as nat);
        assert(f((n - 1) as u64) == g((n - 1) as u64));
    }
}

/// Changing one term below `n` changes the sum by the same amount.
pub proof fn lemma_sum_update(f: spec_fn(u64) -> int, g: spec_fn(u64) -> int, n: nat, k: u64)
    requires
        n <= u64::MAX as nat + 1,
        (k as nat) < n,
        forall|i: u64| (i as nat) < n && i != k ==> #[trigger] f(i) == g(i),
    ensures
        sum_below(g, n) == sum_below(f, n) - f(k) + g(k),
    decreases n,
{
    if n - 1 == k as nat {
        lemma_sum_agree(f, g, (n - 1) as nat);
    } else {
        lemma_sum_update(f, g, (n - 1) as nat, k);
        assert(f((n - 1) as u64) == g((n - 1) as u64));
    }
}

/// A sum of non-negative terms is at least each of its terms.
pub proof fn lemma_sum_bounds(f: spec_fn(u64) -> int, n: nat, k: u64)
    requires
        n <= u64::MAX as nat + 1,
        forall|i: u64| #[trigger] f(i) >= 0,
    ensures
        sum_below(f, n) >= 0,
        (k as nat) < n ==> f(k) <= sum_below(f, n),
    decreases n,
{
    if n > 0 {
        lemma_sum_bounds(f, (n - 1) as nat, k);
    }
}

/// Sums are monotone in their terms.
pub proof fn lemma_sum_mono(f: spec_fn(u64) -> int, g: spec_fn(u64) -> int, n: nat)
    requires
        forall|i: u64| #[trigger] f(i) <= g(i),
    ensures
        sum_below(f, n) <= sum_below(g, n),
    decreases n,
{
    if n > 0 {
        lemma_sum_mono(f, g, (n - 1) as nat);
        assert(f((n - 1) as u64) <= g((n - 1) as u64));
    }
}

} // verus!
