//! Properties of the pool that span its operations.
use vstd::prelude::*;
use crate::combined_key::{lemma_key_parts, pow32, pow64, pow96, spec_pack};
use crate::discount::{discount_bp, supported_discount, DISCOUNT_STEP};
use crate::fills::{
    claim_term, claimable_sum, claims_match, fills_end, fills_high, fills_low, fills_start, first_fills,
    apply_fill_counts, lemma_claimable_step, remove_keys, tag_fills, CollectedFill,
};
use crate::liquify::{buy_key, Liquify};
use crate::ordered_map::{contains_key, count_below, has_key_at, lemma_count_below_bound, strictly_sorted};
use crate::decimal::spec_mul;
use crate::positions::{automation_without, seq_sum};
use crate::queries::ready_receipts;
use crate::types::{LSUData, LiquifyError, UnstakeData, UnstakeNFTOrLSU};
use crate::unstake::{
    apply_fills_data, buy_value, fills_xrd, first_keys, insert_lsu_fills, insert_nft_fills, map_insert, map_remove, named_before,
    unstake_keys, OrderFill, UnstakeOutcome,
};
use crate::types::{AutomationReadyReceipt, LiquidityData, LiquidityReceipt};

verus! {

/// The key of a fill made for receipt `id` with fill counter `counter` lies
/// in the range of that receipt's fills, unless the counter's low 32 bits
/// are zero.
pub proof fn lemma_fill_key_in_range(id: u64, counter: u32)
    requires
        counter >= 1,
    ensures
        fills_low(id) <= spec_pack(id, counter, 0) <= fills_high(id),
{
    lemma_key_parts(id, counter, 0);
    lemma_key_parts(id, 1, 0);
    lemma_key_parts(id, 0xffff_ffff, 0);
}

/// The ranges of the fills of two receipts are disjoint, unless their
/// identifiers agree in their low 32 bits.
pub proof fn lemma_fill_ranges_disjoint(id1: u64, id2: u64, counter: u32)
    requires
        id1 as int % pow32() != id2 as int % pow32(),
    ensures
        !(fills_low(id2) <= spec_pack(id1, counter, 0) <= fills_high(id2)),
{
    lemma_key_parts(id1, counter, 0);
    lemma_key_parts(id2, 1, 0);
    lemma_key_parts(id2, 0xffff_ffff, 0);
}

/// Of two supported discounts, the one with fewer basis points is not larger.
proof fn lemma_bp_order(d1: int, d2: int)
    requires
        supported_discount(d1),
        supported_discount(d2),
        discount_bp(d1) <= discount_bp(d2),
    ensures
        d1 <= d2,
{
    if d1 > d2 {
        vstd::arithmetic::div_mod::lemma_fundamental_div_mod(d1, DISCOUNT_STEP as int);
        vstd::arithmetic::div_mod::lemma_fundamental_div_mod(d2, DISCOUNT_STEP as int);
        assert(d1 >= d2 + DISCOUNT_STEP) by (nonlinear_arith)
            requires
                d1 > d2,
                d1 == DISCOUNT_STEP * (d1 / (DISCOUNT_STEP as int)),
                d2 == DISCOUNT_STEP * (d2 / (DISCOUNT_STEP as int));
        vstd::arithmetic::div_mod::lemma_div_is_ordered(d2 + 200_000_000_000_000, d1, 100_000_000_000_000);
        vstd::arithmetic::div_mod::lemma_div_plus_one(d2 + 100_000_000_000_000, 100_000_000_000_000);
        vstd::arithmetic::div_mod::lemma_div_plus_one(d2, 100_000_000_000_000);
    }
}

/// The fills of a sale come from the positions of the keys it names, in the
/// order of the keys, and a small order fills no position with auto unstake;
/// with increasing keys, the fills' keys increase.
pub proof fn lemma_plan_entries(s: Liquify, keys: Seq<u128>, i: nat, remaining: int, rate: int, counter: int, small: bool)
    requires
        s.wf(),
    ensures
        ({
            let p = s.planned_fills(keys, i, remaining, rate, counter, small);
            &&& forall|k: int| 0 <= k < p.len() ==> {
                &&& contains_key(s.buy_list@, #[trigger] p[k].buy_key)
                &&& p[k].receipt_id == buy_value(s.buy_list@, p[k].buy_key)
                &&& p[k].discount == s.receipts@[p[k].receipt_id].discount
                &&& p[k].auto_unstake == s.receipts@[p[k].receipt_id].auto_unstake
                &&& p[k].new_fills == (s.liquidity_data@[p[k].receipt_id].fills_to_collect + 1) as u64
                &&& (small ==> !p[k].auto_unstake)
                &&& exists|q: int| i <= q < keys.len() && keys[q] == p[k].buy_key
            }
            &&& (forall|a: int, b: int| i <= a < b < keys.len() ==> keys[a] < keys[b]) ==>
                forall|k1: int, k2: int| 0 <= k1 < k2 < p.len() ==> #[trigger] p[k1].buy_key < #[trigger] p[k2].buy_key
        }),
    decreases keys.len() - i,
{
    reveal_with_fuel(Liquify::planned_fills, 1);
    if i < keys.len() {
        lemma_plan_entries(s, keys, i + 1, remaining, rate, counter, small);
        if !s.passes_over(keys[i as int], small) && !named_before(keys, i as int) {
            let id = buy_value(s.buy_list@, keys[i as int]);
            let step = crate::matching::fill_step(remaining, rate, s.receipts@[id].discount as int,
                s.liquidity_data@[id].xrd_liquidity_available as int);
            let rest = remaining - step.0;
            lemma_plan_entries(s, keys, i + 1, rest, rate, counter + 1, small);
            let p = s.planned_fills(keys, i, remaining, rate, counter, small);
            let tail = if rest == 0 {
                Seq::<OrderFill>::empty()
            } else {
                s.planned_fills(keys, i + 1, rest, rate, counter + 1, small)
            };
            assert forall|k: int| 0 <= k < p.len() implies exists|q: int| i <= q < keys.len() && keys[q] == (#[trigger] p[k]).buy_key by {
                if k == 0 {
                    assert(keys[i as int] == p[0].buy_key);
                } else {
                    assert(p[k] == tail[k - 1]);
                    let q = choose|q: int| i + 1 <= q < keys.len() && keys[q] == tail[k - 1].buy_key;
                    assert(i <= q < keys.len() && keys[q] == p[k].buy_key);
                }
            }
            if forall|a: int, b: int| i <= a < b < keys.len() ==> keys[a] < keys[b] {
                assert forall|k1: int, k2: int| 0 <= k1 < k2 < p.len() implies #[trigger] p[k1].buy_key < #[trigger] p[k2].buy_key by {
                    assert(p[k2] == tail[k2 - 1]);
                    if k1 == 0 {
                        let q = choose|q: int| i + 1 <= q < keys.len() && keys[q] == tail[k2 - 1].buy_key;
                        assert(keys[i as int] < keys[q]);
                    } else {
                        assert(p[k1] == tail[k1 - 1]);
                    }
                }
            }
            assert forall|k: int| 0 <= k < p.len() implies {
                &&& contains_key(s.buy_list@, #[trigger] p[k].buy_key)
                &&& p[k].receipt_id == buy_value(s.buy_list@, p[k].buy_key)
                &&& p[k].discount == s.receipts@[p[k].receipt_id].discount
                &&& p[k].auto_unstake == s.receipts@[p[k].receipt_id].auto_unstake
                &&& p[k].new_fills == (s.liquidity_data@[p[k].receipt_id].fills_to_collect + 1) as u64
                &&& (small ==> !p[k].auto_unstake)
            } by {
                if k > 0 {
                    assert(p[k] == tail[k - 1]);
                }
            }
        } else {
            let p = s.planned_fills(keys, i, remaining, rate, counter, small);
            assert(p == s.planned_fills(keys, i + 1, remaining, rate, counter, small));
            assert forall|k: int| 0 <= k < p.len() implies exists|q: int| i <= q < keys.len() && keys[q] == (#[trigger] p[k]).buy_key by {
                let q = choose|q: int| i + 1 <= q < keys.len() && keys[q] == p[k].buy_key;
                assert(i <= q < keys.len() && keys[q] == p[k].buy_key);
            }
        }
    }
}

/// A small order is sold to no position with auto unstake: every fill of a
/// sale whose LSUs are worth less than the small order threshold goes to a
/// position that is handed its LSUs as they are.
pub proof fn lemma_small_order_skips_auto_unstake(s: Liquify, keys: Seq<u128>, lsu_amount: int, rate: int, counter: int)
    requires
        s.wf(),
        s.is_small_order(lsu_amount, rate),
    ensures
        ({
            let p = s.planned_fills(keys, 0, lsu_amount, rate, counter, s.is_small_order(lsu_amount, rate));
            forall|k: int| 0 <= k < p.len() ==> !(#[trigger] p[k]).auto_unstake
                && !s.receipts@[p[k].receipt_id].auto_unstake
        }),
{
    lemma_plan_entries(s, keys, 0, lsu_amount, rate, counter, true);
    let p = s.planned_fills(keys, 0, lsu_amount, rate, counter, true);
    assert forall|k: int| 0 <= k < p.len() implies !(#[trigger] p[k]).auto_unstake
        && !s.receipts@[p[k].receipt_id].auto_unstake by {
        assert(contains_key(s.buy_list@, p[k].buy_key));
    }
}

/// A sale through the buy list fills the best discounts first: the fills of
/// `liquify_unstake`, which names the first keys of the buy list, come in
/// order of non-decreasing discount.
pub proof fn lemma_sale_best_discount_first(s: Liquify, m: int, remaining: int, rate: int, counter: int, small: bool)
    requires
        s.wf(),
        0 <= m <= s.buy_list@.len(),
    ensures
        ({
            let p = s.planned_fills(first_keys(s.buy_list@, m), 0, remaining, rate, counter, small);
            forall|k1: int, k2: int| 0 <= k1 < k2 < p.len() ==> #[trigger] p[k1].discount <= #[trigger] p[k2].discount
        }),
{
    let keys = first_keys(s.buy_list@, m);
    let b = s.buy_list@;
    assert forall|a: int, c: int| 0 <= a < c < keys.len() implies keys[a] < keys[c] by {
        assert(b[a].0 < b[c].0);
    }
    lemma_plan_entries(s, keys, 0, remaining, rate, counter, small);
    let p = s.planned_fills(keys, 0, remaining, rate, counter, small);
    assert forall|k1: int, k2: int| 0 <= k1 < k2 < p.len() implies #[trigger] p[k1].discount <= #[trigger] p[k2].discount by {
        let x = p[k1].buy_key;
        let y = p[k2].buy_key;
        assert(x < y);
        let qx = choose|q: int| has_key_at(b, q, x);
        let qy = choose|q: int| has_key_at(b, q, y);
        assert(s.receipts@.contains_key(b[qx].1));
        assert(s.receipts@.contains_key(b[qy].1));
        assert((b[qx].0 as int) / pow96() == discount_bp(s.receipts@[b[qx].1].discount as int));
        assert((b[qy].0 as int) / pow96() == discount_bp(s.receipts@[b[qy].1].discount as int));
        vstd::arithmetic::div_mod::lemma_div_is_ordered(x as int, y as int, pow96());
        lemma_bp_order(p[k1].discount as int, p[k2].discount as int);
    }
}

/// A position moved to the back of the queue of its discount (by
/// `increase_liquidity` or `cycle_liquidity`) gets a key above that of every
/// other position at that discount whose liquidity was last added no later.
pub proof fn lemma_refill_goes_last(s: Liquify, discount: int, epoch: u32)
    requires
        s.wf(),
        supported_discount(discount),
    ensures
        forall|i: int| 0 <= i < s.buy_list@.len()
            && (#[trigger] s.buy_list@[i].0 as int) / pow96() == discount_bp(discount)
            && ((s.buy_list@[i].0 as int) / pow64()) % pow32() <= epoch
            ==> (s.buy_list@[i].0 as int) < buy_key(discount, epoch, s.liquidity_receipt_counter),
{
    let n = s.liquidity_receipt_counter;
    let bp = discount_bp(discount);
    assert(bp <= 500) by {
        vstd::arithmetic::div_mod::lemma_div_is_ordered(discount, 200 * (DISCOUNT_STEP as int), 100_000_000_000_000);
    }
    lemma_key_parts(bp as u64, epoch, n);
    assert forall|i: int| 0 <= i < s.buy_list@.len()
        && (#[trigger] s.buy_list@[i].0 as int) / pow96() == bp
        && ((s.buy_list@[i].0 as int) / pow64()) % pow32() <= epoch
        implies (s.buy_list@[i].0 as int) < buy_key(discount, epoch, n) by {
        let k = s.buy_list@[i].0 as int;
        assert(s.receipts@.contains_key(s.buy_list@[i].1));
        let ep = (k / pow64()) % pow32();
        vstd::arithmetic::div_mod::lemma_fundamental_div_mod(k, pow64());
        vstd::arithmetic::div_mod::lemma_fundamental_div_mod(k / pow64(), pow32());
        vstd::arithmetic::div_mod::lemma_div_denominator(k, pow64(), pow32());
        assert(pow64() * pow32() == pow96());
        assert(k == pow96() * bp + pow64() * ep + k % pow64()) by (nonlinear_arith)
            requires
                k == pow64() * (k / pow64()) + k % pow64(),
                k / pow64() == pow32() * ((k / pow64()) / pow32()) + ep,
                (k / pow64()) / pow32() == k / pow96(),
                k / pow96() == bp,
                pow64() * pow32() == pow96();
        assert(k % pow64() < n);
        assert(bp % pow32() == bp);
    }
}

/// The fills of receipt `id` lie together in the fill tree: from position
/// `fills_start` to `fills_end`, each with a key in the receipt's range.
proof fn lemma_fill_segment(tree: Seq<(u128, UnstakeNFTOrLSU)>, id: u64)
    requires
        strictly_sorted(tree),
    ensures
        0 <= fills_start(tree, id) <= fills_end(tree, id) <= tree.len(),
        forall|i: int| fills_start(tree, id) <= i < fills_end(tree, id) ==>
            fills_low(id) <= #[trigger] tree[i].0 <= fills_high(id),
{
    lemma_key_parts(id, 1, 0);
    lemma_key_parts(id, 0xffff_ffff, 0);
    let lo = fills_low(id);
    let hi1 = (fills_high(id) + 1) as u128;
    lemma_count_below_bound(tree, lo);
    lemma_count_below_bound(tree, hi1);
    let start = fills_start(tree, id);
    let end = fills_end(tree, id);
    if end < start {
        assert(tree[end].0 >= hi1);
        assert(tree[end].0 < lo);
    }
}

/// A position's fills come out oldest first: of two fills made for receipt
/// `id`, the one made earlier (with the smaller fill counter) has the smaller
/// key, and the first `max` fills of the receipt (those that `receipt_fills`
/// lists and that claims and cycles read) come in increasing key order, each
/// within the receipt's range.
pub proof fn lemma_fills_oldest_first(s: Liquify, id: u64, max: int, c1: u32, c2: u32)
    requires
        s.wf(),
        0 <= max,
        c1 < c2,
    ensures
        spec_pack(id, c1, 0) < spec_pack(id, c2, 0),
        ({
            let f = first_fills(s.order_fill_tree@, id, max);
            &&& f.len() <= max
            &&& forall|a: int, b: int| 0 <= a < b < f.len() ==> #[trigger] f[a].0 < #[trigger] f[b].0
            &&& forall|a: int| 0 <= a < f.len() ==> fills_low(id) <= #[trigger] f[a].0 <= fills_high(id)
        }),
{
    let tree = s.order_fill_tree@;
    lemma_fill_segment(tree, id);
    let start = fills_start(tree, id);
    let f = first_fills(tree, id, max);
    assert forall|a: int, b: int| 0 <= a < b < f.len() implies #[trigger] f[a].0 < #[trigger] f[b].0 by {
        assert(f[a] == tree[start + a] && f[b] == tree[start + b]);
    }
    assert forall|a: int| 0 <= a < f.len() implies fills_low(id) <= #[trigger] f[a].0 <= fills_high(id) by {
        assert(f[a] == tree[start + a]);
    }
}

/// Collecting from `ids[k..]` keeps the fills collected for each receipt in
/// increasing key order, given that the fills collected so far are so and
/// belong to the receipts of `ids[..k]`.
proof fn lemma_collect_sorted(
    s: Liquify,
    tree: Seq<(u128, UnstakeNFTOrLSU)>,
    collected: Seq<CollectedFill>,
    updates: Seq<(u64, u64)>,
    counter: int,
    ids: Seq<u64>,
    k: nat,
    limit: int,
)
    requires
        strictly_sorted(tree),
        ids.no_duplicates(),
        k <= ids.len(),
        forall|a: int, b: int| 0 <= a < b < collected.len() && collected[a].receipt_id == collected[b].receipt_id
            ==> #[trigger] collected[a].fill_key < #[trigger] collected[b].fill_key,
        forall|a: int| 0 <= a < collected.len() ==> exists|q: int| 0 <= q < k && ids[q] == (#[trigger] collected[a]).receipt_id,
    ensures
        ({
            let c = s.collect_from(tree, collected, updates, counter, ids, k, limit).1;
            forall|a: int, b: int| 0 <= a < b < c.len() && c[a].receipt_id == c[b].receipt_id
                ==> #[trigger] c[a].fill_key < #[trigger] c[b].fill_key
        }),
    decreases ids.len() - k,
{
    reveal_with_fuel(Liquify::collect_from, 1);
    if k < ids.len() {
        let id = ids[k as int];
        let fills = s.liquidity_data@[id].fills_to_collect as int;
        if fills == 0 {
            lemma_collect_sorted(s, tree, collected, updates, counter, ids, k + 1, limit);
        } else if counter < limit {
            lemma_fill_segment(tree, id);
            let start = fills_start(tree, id);
            let end = fills_end(tree, id);
            let t = if end - start < limit - counter { end - start } else { limit - counter };
            if t <= fills {
                let seg = tree.subrange(start, start + t);
                let rest = tree.subrange(0, start) + tree.subrange(start + t, tree.len() as int);
                let more = collected + tag_fills(id, seg);
                assert forall|i: int, j: int| 0 <= i < j < rest.len() implies rest[i].0 < rest[j].0 by {
                    let oi = if i < start { i } else { i + t };
                    let oj = if j < start { j } else { j + t };
                    assert(rest[i] == tree[oi] && rest[j] == tree[oj]);
                }
                assert forall|a: int, b: int| 0 <= a < b < more.len() && more[a].receipt_id == more[b].receipt_id
                    implies #[trigger] more[a].fill_key < #[trigger] more[b].fill_key by {
                    let n = collected.len() as int;
                    if b < n {
                        assert(more[a] == collected[a] && more[b] == collected[b]);
                    } else if a < n {
                        assert(more[a] == collected[a]);
                        let q = choose|q: int| 0 <= q < k && ids[q] == collected[a].receipt_id;
                        assert(ids[q] != ids[k as int]);
                    } else {
                        assert(more[a].fill_key == tree[start + a - n].0);
                        assert(more[b].fill_key == tree[start + b - n].0);
                    }
                }
                assert forall|a: int| 0 <= a < more.len() implies exists|q: int| 0 <= q < k + 1 && ids[q] == (#[trigger] more[a]).receipt_id by {
                    if a < collected.len() {
                        assert(more[a] == collected[a]);
                        let q = choose|q: int| 0 <= q < k && ids[q] == collected[a].receipt_id;
                        assert(0 <= q < k + 1 && ids[q] == more[a].receipt_id);
                    } else {
                        assert(ids[k as int] == more[a].receipt_id);
                    }
                }
                lemma_collect_sorted(s, rest, more, updates.push((id, (fills - t) as u64)), counter + t, ids, k + 1, limit);
            }
        }
    }
}

/// Collecting fills hands out each position's fills oldest first: the fills
/// that `collect_fills` collects for one receipt come in increasing key order.
pub proof fn lemma_collect_oldest_first(s: Liquify, ids: Seq<u64>, limit: int)
    requires
        s.wf(),
        ids.no_duplicates(),
    ensures
        ({
            let c = s.collect_from(s.order_fill_tree@, Seq::empty(), Seq::empty(), 0, ids, 0, limit).1;
            forall|a: int, b: int| 0 <= a < b < c.len() && c[a].receipt_id == c[b].receipt_id
                ==> #[trigger] c[a].fill_key < #[trigger] c[b].fill_key
        }),
{
    lemma_collect_sorted(s, s.order_fill_tree@, Seq::empty(), Seq::empty(), 0, ids, 0, limit);
}

/// Sales plan the same fills whatever the component's status.
proof fn lemma_plan_ignores_status(s: Liquify, status: bool, keys: Seq<u128>, i: nat, remaining: int, rate: int, counter: int, small: bool)
    ensures
        (Liquify { component_status: status, ..s }).planned_fills(keys, i, remaining, rate, counter, small)
            == s.planned_fills(keys, i, remaining, rate, counter, small),
    decreases keys.len() - i,
{
    reveal_with_fuel(Liquify::planned_fills, 1);
    if i < keys.len() {
        lemma_plan_ignores_status(s, status, keys, i + 1, remaining, rate, counter, small);
        if !s.passes_over(keys[i as int], small) && !named_before(keys, i as int) {
            let id = buy_value(s.buy_list@, keys[i as int]);
            let step = crate::matching::fill_step(remaining, rate, s.receipts@[id].discount as int,
                s.liquidity_data@[id].xrd_liquidity_available as int);
            lemma_plan_ignores_status(s, status, keys, i + 1, remaining - step.0, rate, counter + 1, small);
        }
    }
}

/// Collecting takes the same fills whatever the component's status.
proof fn lemma_collect_ignores_status(
    s: Liquify,
    status: bool,
    tree: Seq<(u128, UnstakeNFTOrLSU)>,
    collected: Seq<CollectedFill>,
    updates: Seq<(u64, u64)>,
    counter: int,
    ids: Seq<u64>,
    k: nat,
    limit: int,
)
    ensures
        (Liquify { component_status: status, ..s }).collect_from(tree, collected, updates, counter, ids, k, limit)
            == s.collect_from(tree, collected, updates, counter, ids, k, limit),
    decreases ids.len() - k,
{
    reveal_with_fuel(Liquify::collect_from, 1);
    if k < ids.len() {
        let id = ids[k as int];
        let fills = s.liquidity_data@[id].fills_to_collect as int;
        lemma_collect_ignores_status(s, status, tree, collected, updates, counter, ids, k + 1, limit);
        let start = fills_start(tree, id);
        let end = fills_end(tree, id);
        let t = if end - start < limit - counter { end - start } else { limit - counter };
        lemma_collect_ignores_status(s, status,
            tree.subrange(0, start) + tree.subrange(start + t, tree.len() as int),
            collected + tag_fills(id, tree.subrange(start, start + t)),
            updates.push((id, (fills - t) as u64)), counter + t, ids, k + 1, limit);
    }
}

/// A closed component refuses new liquidity, and an open one passes that
/// check: after `set_component_status(status)`, `add_liquidity` is refused
/// with `ComponentDisabled` exactly when `status` is false, while the other
/// operations read nothing of the status: sales plan the same fills and are
/// refused alike, collecting takes the same fills, and increases, automation
/// updates and cycles are refused alike.
pub proof fn lemma_component_status_gates_liquidity(
    s: Liquify,
    status: bool,
    xrd_amount: i128,
    discount: i128,
    auto_unstake: bool,
    auto_refill: bool,
    refill_threshold: i128,
)
    ensures
        (Liquify { component_status: status, ..s }).add_liquidity_error(
            xrd_amount, discount, auto_unstake, auto_refill, refill_threshold)
            == Some(LiquifyError::ComponentDisabled) <==> !status,
        forall|keys: Seq<u128>, remaining: int, rate: int, counter: int, small: bool|
            #[trigger] (Liquify { component_status: status, ..s }).planned_fills(keys, 0, remaining, rate, counter, small)
                == s.planned_fills(keys, 0, remaining, rate, counter, small),
        forall|fills: Seq<OrderFill>| #[trigger] (Liquify { component_status: status, ..s }).unstake_error(fills)
            == s.unstake_error(fills),
        forall|ids: Seq<u64>, limit: int|
            #[trigger] (Liquify { component_status: status, ..s }).collect_from(
                s.order_fill_tree@, Seq::empty(), Seq::empty(), 0, ids, 0, limit)
                == s.collect_from(s.order_fill_tree@, Seq::empty(), Seq::empty(), 0, ids, 0, limit),
        forall|id: u64, amount: i128| #[trigger] (Liquify { component_status: status, ..s }).increase_error(id, amount)
            == s.increase_error(id, amount),
        forall|id: u64, auto_refill: bool, threshold: i128|
            #[trigger] (Liquify { component_status: status, ..s }).update_automation_error(id, auto_refill, threshold)
                == s.update_automation_error(id, auto_refill, threshold),
        forall|id: u64, max: u64, claims: Seq<Option<UnstakeData>>, epoch: u64|
            #[trigger] (Liquify { component_status: status, ..s }).cycle_error(id, max, claims, epoch)
                == s.cycle_error(id, max, claims, epoch),
{
    assert forall|keys: Seq<u128>, remaining: int, rate: int, counter: int, small: bool|
        #[trigger] (Liquify { component_status: status, ..s }).planned_fills(keys, 0, remaining, rate, counter, small)
            == s.planned_fills(keys, 0, remaining, rate, counter, small) by {
        lemma_plan_ignores_status(s, status, keys, 0, remaining, rate, counter, small);
    }
    assert forall|ids: Seq<u64>, limit: int|
        #[trigger] (Liquify { component_status: status, ..s }).collect_from(
            s.order_fill_tree@, Seq::empty(), Seq::empty(), 0, ids, 0, limit)
            == s.collect_from(s.order_fill_tree@, Seq::empty(), Seq::empty(), 0, ids, 0, limit) by {
        lemma_collect_ignores_status(s, status, s.order_fill_tree@, Seq::empty(), Seq::empty(), 0, ids, 0, limit);
    }
}

/// The minimum liquidity is enforced on both ways of adding XRD: after
/// `set_minimum_liquidity(m)`, an open pool refuses a deposit below `m`, and
/// an increase is refused exactly when the position would stay below `m`.
pub proof fn lemma_minimum_liquidity_enforced(
    s: Liquify,
    m: i128,
    xrd_amount: i128,
    discount: i128,
    auto_unstake: bool,
    auto_refill: bool,
    refill_threshold: i128,
    receipt_id: u64,
)
    requires
        s.component_status,
    ensures
        (Liquify { minimum_liquidity: m, ..s }).add_liquidity_error(
            xrd_amount, discount, auto_unstake, auto_refill, refill_threshold)
            == Some(LiquifyError::BelowMinimumLiquidity) <==> xrd_amount < m,
        (Liquify { minimum_liquidity: m, ..s }).increase_error(receipt_id, xrd_amount).is_some()
            <==> s.liquidity_data@[receipt_id].xrd_liquidity_available + xrd_amount < m,
{
}

/// A new platform fee is charged on the next sale: after
/// `set_platform_fee(f)`, a sale whose fills pay `X` XRD keeps `X * f` in the
/// fee vault and pays the seller the rest.
pub proof fn lemma_platform_fee_charged(
    s: Liquify,
    f: i128,
    after: Liquify,
    fills: Seq<OrderFill>,
    lsu_amount: i128,
    resource: crate::types::ResourceBytes,
    out: UnstakeOutcome,
)
    requires
        after.is_sale_of(Liquify { platform_fee: f, ..s }, fills, lsu_amount, resource, Ok(out)),
    ensures
        out.platform_fee_amount == spec_mul(fills_xrd(fills), f as int),
        out.xrd_to_user == fills_xrd(fills) - spec_mul(fills_xrd(fills), f as int),
        after.fee_vault == s.fee_vault + spec_mul(fills_xrd(fills), f as int),
{
}

/// The automation fees reported for ready positions, at fee `fee`.
proof fn lemma_ready_after_fee(automated: Seq<u64>, claimable: Seq<i128>, receipts: Map<u64, crate::types::LiquidityReceipt>, fee: i128)
    ensures
        ({
            let r = ready_receipts(automated, claimable, receipts, fee);
            forall|k: int| 0 <= k < r.len() ==> #[trigger] r[k].xrd_after_fee == #[verifier::truncate] ((r[k].claimable_xrd - fee) as i128)
        }),
    decreases automated.len(),
{
    if automated.len() > 0 && claimable.len() > 0 {
        let rest = ready_receipts(automated.drop_last(), claimable.drop_last(), receipts, fee);
        lemma_ready_after_fee(automated.drop_last(), claimable.drop_last(), receipts, fee);
        let r = ready_receipts(automated, claimable, receipts, fee);
        assert forall|k: int| 0 <= k < r.len() implies #[trigger] r[k].xrd_after_fee == #[verifier::truncate] ((r[k].claimable_xrd - fee) as i128) by {
            if k < rest.len() {
                assert(r[k] == rest[k]);
            }
        }
    }
}

/// A new automation fee is kept on the next cycle: after
/// `set_automation_fee(f)`, a cycle whose claims bring at least `f` XRD hands
/// `f` to the caller (less is refused), and the ready positions report their
/// claimable XRD less `f`.
pub proof fn lemma_automation_fee_kept(s: Liquify, f: i128, claimed_xrd: int, claimable: Seq<i128>)
    ensures
        (Liquify { automation_fee: f, ..s }).cycle_result(claimed_xrd) == if claimed_xrd < f {
            Err::<i128, LiquifyError>(LiquifyError::ClaimedBelowAutomationFee)
        } else {
            Ok::<i128, LiquifyError>(f)
        },
        ({
            let r = ready_receipts(s.automated_liquidity@, claimable, s.receipts@, f);
            forall|k: int| 0 <= k < r.len() ==> #[trigger] r[k].xrd_after_fee == #[verifier::truncate] ((r[k].claimable_xrd - f) as i128)
        }),
{
    lemma_ready_after_fee(s.automated_liquidity@, claimable, s.receipts@, f);
}

/// A new receipt image reaches new receipts only: after
/// `set_receipt_image_url(url)`, the next position's receipt carries `url`
/// and the receipts made before keep theirs.
pub proof fn lemma_image_url_reaches_new_receipts(
    s: Liquify,
    url: String,
    after: Liquify,
    xrd_amount: i128,
    discount: i128,
    auto_unstake: bool,
    auto_refill: bool,
    refill_threshold: i128,
    current_epoch: u64,
    id: u64,
)
    requires
        after.added_position(Liquify { receipt_image_url: url, ..s }, xrd_amount, discount, auto_unstake,
            auto_refill, refill_threshold, current_epoch, id),
    ensures
        after.receipts@[id].key_image_url@ == url@,
        forall|j: u64| j != id && s.receipts@.contains_key(j) ==> #[trigger] after.receipts@[j] == s.receipts@[j],
{
}

/// Withdrawing a position right after opening it gives its deposit back and
/// restores the buy list, the automation list, the XRD vault, the locked
/// total and the liquidity at each discount.
pub proof fn lemma_add_then_remove(
    s: Liquify,
    added: Liquify,
    removed: Liquify,
    xrd_amount: i128,
    discount: i128,
    auto_unstake: bool,
    auto_refill: bool,
    refill_threshold: i128,
    current_epoch: u64,
    id: u64,
    amounts: Seq<i128>,
)
    requires
        s.wf(),
        id == s.liquidity_receipt_counter,
        added.added_position(s, xrd_amount, discount, auto_unstake, auto_refill, refill_threshold, current_epoch, id),
        removed.removed_positions(added, seq![id], amounts),
        removed.wf(),
    ensures
        amounts == seq![xrd_amount],
        removed.buy_list@ == s.buy_list@,
        removed.automated_liquidity@ == s.automated_liquidity@,
        removed.xrd_liquidity == s.xrd_liquidity,
        removed.total_xrd_locked == s.total_xrd_locked,
        removed.liquidity_index@ == s.liquidity_index@,
{
    let ids = seq![id];
    assert(amounts[0] == xrd_amount);
    assert(amounts =~= seq![xrd_amount]);
    reveal_with_fuel(seq_sum, 2);
    assert(ids.drop_last() =~= Seq::<u64>::empty());
    // The buy list: the new entry is the only one of `id`.
    let b = s.buy_list@;
    let epoch = #[verifier::truncate] (current_epoch as u32);
    let key = buy_key(discount as int, epoch, id) as u128;
    let p = crate::ordered_map::count_below(b, key);
    let b2 = added.buy_list@;
    assert forall|i: int| 0 <= i < b.len() implies b[i].1 != id by {
        assert(s.receipts@.contains_key(b[i].1));
    }
    crate::ordered_map::lemma_count_below_bound(b, key);
    assert(b2[p].1 == id);
    assert forall|q: int| 0 <= q < b2.len() && b2[q].1 == id implies q == p by {
        if q < p {
            assert(b2[q] == b[q]);
        } else if q > p {
            assert(b2[q] == b[q - 1]);
        }
    }
    assert(crate::liquify::without_receipt(b2, id) =~= b);
    assert(removed.buy_list@ == crate::liquify::without_receipt(
        crate::positions::without_receipts(b2, ids.drop_last()), id));
    // The automation list.
    let a = s.automated_liquidity@;
    assert(!a.contains(id)) by {
        if a.contains(id) {
            assert(s.receipts@.contains_key(id));
        }
    }
    if auto_refill {
        let a2 = a.push(id);
        assert(a2[a.len() as int] == id);
        let q = choose|q: int| 0 <= q < a2.len() && a2[q] == id;
        assert(q == a.len());
        assert(automation_without(a2, id) =~= a);
    }
    assert(removed.automated_liquidity@ == automation_without(
        crate::positions::automation_without_all(added.automated_liquidity@, ids.drop_last()), id));
    // The liquidity at each discount level, through the invariant.
    let n = s.liquidity_receipt_counter as nat;
    assert forall|lvl: int| 0 <= lvl < crate::discount::DISCOUNT_LEVELS implies
        #[trigger] removed.liquidity_index@[lvl] == s.liquidity_index@[lvl] by {
        let f = crate::liquify::available_at_level(s.liquidity_data@, s.receipts@, lvl);
        let g = crate::liquify::available_at_level(removed.liquidity_data@, removed.receipts@, lvl);
        assert forall|i: u64| (i as nat) < n implies #[trigger] f(i) == g(i) by {
            if s.receipts@.contains_key(i) {
                assert(i != id);
                assert(added.receipts@[i] == s.receipts@[i]);
                assert(!ids.contains(i));
            }
            assert(removed.liquidity_data@.contains_key(i) == s.liquidity_data@.contains_key(i));
            assert(removed.receipts@.contains_key(i) == s.receipts@.contains_key(i));
        }
        crate::sums::lemma_sum_agree(f, g, n);
        assert(ids.contains(id));
        assert(g(id) == 0);
        assert(crate::sums::sum_below(g, n + 1) == crate::sums::sum_below(g, n) + g(id));
    }
    assert(removed.liquidity_index@ =~= s.liquidity_index@);
}

/// Collecting with a limit of `m` from a position whose `n` fills are all in
/// the fill tree takes `min(m, n)` of them, oldest first, and leaves the other
/// `n - min(m, n)` in the tree with the count lowered to match, so that the
/// next call starts where this one stopped.
pub proof fn lemma_collect_up_to_limit(s: Liquify, id: u64, m: int)
    requires
        s.wf(),
        s.receipts@.contains_key(id),
        0 <= m,
        s.liquidity_data@[id].fills_to_collect == fills_end(s.order_fill_tree@, id) - fills_start(s.order_fill_tree@, id),
    ensures
        ({
            let tree = s.order_fill_tree@;
            let start = fills_start(tree, id);
            let n = fills_end(tree, id) - start;
            let took = if n < m { n } else { m };
            let (t, c, u, failed) = s.collect_from(tree, Seq::empty(), Seq::empty(), 0, seq![id], 0, m);
            &&& !failed
            &&& c == tag_fills(id, tree.subrange(start, start + took))
            &&& (n > 0 && m > 0 ==> u == seq![(id, (n - took) as u64)])
            &&& fills_end(t, id) - fills_start(t, id) == n - took
        }),
{
    reveal_with_fuel(Liquify::collect_from, 2);
    let tree = s.order_fill_tree@;
    lemma_fill_segment(tree, id);
    let start = fills_start(tree, id);
    let end = fills_end(tree, id);
    let n = end - start;
    let took = if n < m { n } else { m };
    let ids = seq![id];
    assert(ids[0] == id);
    if n > 0 && m > 0 {
        let t = tree.subrange(0, start) + tree.subrange(start + took, tree.len() as int);
        let low = fills_low(id);
        let high1 = (fills_high(id) + 1) as u128;
        lemma_key_parts(id, 1, 0);
        lemma_key_parts(id, 0xffff_ffff, 0);
        lemma_count_below_bound(tree, low);
        lemma_count_below_bound(tree, high1);
        assert(crate::ordered_map::is_lower_bound(t, low, start)) by {
            assert forall|i: int| 0 <= i < start implies t[i].0 < low by {
                assert(t[i] == tree[i]);
            }
            assert forall|i: int| start <= i < t.len() implies t[i].0 >= low by {
                assert(t[i] == tree[i + took]);
            }
        }
        assert(crate::ordered_map::is_lower_bound(t, high1, end - took)) by {
            assert forall|i: int| 0 <= i < end - took implies t[i].0 < high1 by {
                if i < start {
                    assert(t[i] == tree[i]);
                } else {
                    assert(t[i] == tree[i + took]);
                }
            }
            assert forall|i: int| end - took <= i < t.len() implies t[i].0 >= high1 by {
                assert(t[i] == tree[i + took]);
            }
        }
        crate::ordered_map::lemma_lower_bound_count(t, low, start);
        crate::ordered_map::lemma_lower_bound_count(t, high1, end - took);
        assert(Seq::<CollectedFill>::empty() + tag_fills(id, tree.subrange(start, start + took))
            =~= tag_fills(id, tree.subrange(start, start + took)));
        assert(Seq::<(u64, u64)>::empty().push((id, (n - took) as u64)) =~= seq![(id, (n - took) as u64)]);
    } else {
        assert(tree.subrange(start, start + took) =~= Seq::<(u128, UnstakeNFTOrLSU)>::empty());
        assert(tag_fills(id, tree.subrange(start, start + took)) =~= Seq::<CollectedFill>::empty());
    }
}

/// Claimable XRD over a prefix of the fills grows with the prefix.
proof fn lemma_claimable_prefix_grows(
    f: Seq<(u128, UnstakeNFTOrLSU)>,
    c: Seq<Option<UnstakeData>>,
    j: int,
    k: int,
    e: u64,
)
    requires
        claims_match(f, c),
        0 <= j <= k <= f.len(),
    ensures
        claimable_sum(f.take(j), c.take(j), e) <= claimable_sum(f.take(k), c.take(k), e),
    decreases k - j,
{
    if j < k {
        lemma_claimable_prefix_grows(f, c, j, k - 1, e);
        lemma_claimable_step(f, c, k - 1, e);
        assert(c[k - 1] matches Some(d) ==> 0 <= d.claim_amount);
        assert(claim_term(f[k - 1].1, c[k - 1], e) >= 0);
    }
}

/// The claimable XRD of the first `m` fills of a position grows with `m`, and
/// equals that of all its fills once `m` covers them: the first `m` fills are
/// a prefix of all of them, read with the matching prefix of the claim data.
pub proof fn lemma_limited_claimable_grows(
    s: Liquify,
    id: u64,
    m1: int,
    m2: int,
    claims: Seq<Option<UnstakeData>>,
    e: u64,
)
    requires
        s.wf(),
        0 <= m1 <= m2,
        claims_match(first_fills(s.order_fill_tree@, id, u64::MAX as int), claims),
    ensures
        ({
            let all = first_fills(s.order_fill_tree@, id, u64::MAX as int);
            let f1 = first_fills(s.order_fill_tree@, id, m1);
            let f2 = first_fills(s.order_fill_tree@, id, m2);
            &&& f1 == all.take(f1.len() as int)
            &&& f2 == all.take(f2.len() as int)
            &&& claimable_sum(f1, claims.take(f1.len() as int), e) <= claimable_sum(f2, claims.take(f2.len() as int), e)
            &&& (m1 >= all.len() ==> claimable_sum(f1, claims.take(f1.len() as int), e) == claimable_sum(all, claims, e))
        }),
{
    let tree = s.order_fill_tree@;
    lemma_fill_segment(tree, id);
    let all = first_fills(tree, id, u64::MAX as int);
    let f1 = first_fills(tree, id, m1);
    let f2 = first_fills(tree, id, m2);
    assert(all.len() <= crate::unstake::MAX_ORDER_KEYS);
    assert(f1 =~= all.take(f1.len() as int));
    assert(f2 =~= all.take(f2.len() as int));
    lemma_claimable_prefix_grows(all, claims, f1.len() as int, f2.len() as int, e);
    if m1 >= all.len() {
        assert(f1 =~= all);
        assert(all.take(all.len() as int) =~= all);
        assert(claims.take(all.len() as int) =~= claims);
    }
}

/// XRD that the fills among `f` of receipt `id` pay.
pub open spec fn paid_to(f: Seq<OrderFill>, id: u64) -> int
    decreases f.len(),
{
    if f.len() == 0 {
        0
    } else {
        paid_to(f.drop_last(), id) + if f.last().receipt_id == id { f.last().xrd_amount as int } else { 0 }
    }
}

/// Writing fills adds to each position's filled XRD what its fills paid, and
/// keeps the positions that exist.
proof fn lemma_fills_add_to_filled(data: Map<u64, LiquidityData>, f: Seq<OrderFill>)
    requires
        forall|k: int| 0 <= k < f.len() ==> data.contains_key(#[trigger] f[k].receipt_id),
        forall|id: u64| #[trigger] data.contains_key(id) ==> {
            &&& i128::MIN + crate::matching::AMOUNT_CAP <= data[id].xrd_liquidity_filled
            &&& data[id].xrd_liquidity_filled <= i128::MAX - crate::matching::AMOUNT_CAP
        },
        forall|k: int| 0 <= k < f.len() ==> 0 <= #[trigger] f[k].xrd_amount,
        fills_xrd(f) <= crate::matching::AMOUNT_CAP,
    ensures
        apply_fills_data(data, f).dom() == data.dom(),
        forall|id: u64| #[trigger] data.contains_key(id) ==> apply_fills_data(data, f)[id].xrd_liquidity_filled
            == data[id].xrd_liquidity_filled + paid_to(f, id),
    decreases f.len(),
{
    if f.len() > 0 {
        let g = f.drop_last();
        assert forall|k: int| 0 <= k < g.len() implies data.contains_key(#[trigger] g[k].receipt_id) by {
            assert(g[k] == f[k]);
        }
        assert forall|k: int| 0 <= k < g.len() implies 0 <= #[trigger] g[k].xrd_amount by {
            assert(g[k] == f[k]);
        }
        crate::unstake::lemma_fills_xrd_prefix(f, g.len() as int);
        assert(f.take(g.len() as int) =~= g);
        lemma_fills_add_to_filled(data, g);
        lemma_paid_bounds(g);
        let x = f.last();
        assert(data.contains_key(f[f.len() - 1].receipt_id));
        assert(0 <= f[f.len() - 1].xrd_amount);
        assert(fills_xrd(f) == fills_xrd(g) + x.xrd_amount);
        assert(0 <= paid_to(g, x.receipt_id) <= fills_xrd(g));
    }
}

/// What the fills of one receipt pay lies between zero and what all pay.
proof fn lemma_paid_bounds(f: Seq<OrderFill>)
    requires
        forall|k: int| 0 <= k < f.len() ==> 0 <= #[trigger] f[k].xrd_amount,
    ensures
        forall|id: u64| 0 <= #[trigger] paid_to(f, id) <= fills_xrd(f),
    decreases f.len(),
{
    if f.len() > 0 {
        let g = f.drop_last();
        assert forall|k: int| 0 <= k < g.len() implies 0 <= #[trigger] g[k].xrd_amount by {
            assert(g[k] == f[k]);
        }
        lemma_paid_bounds(g);
        assert(0 <= f[f.len() - 1].xrd_amount);
        assert forall|id: u64| 0 <= #[trigger] paid_to(f, id) <= fills_xrd(f) by {
            assert(0 <= paid_to(g, id) <= fills_xrd(g));
        }
    }
}

/// A sale adds to each position's filled XRD exactly what its fills paid:
/// after a sale of `lsu_amount` LSUs to the positions under `keys` (on the
/// buy list or off it), every position's `xrd_liquidity_filled` is its value
/// before plus the XRD of its fills among those the sale reports.
pub proof fn lemma_sale_adds_to_filled(
    s: Liquify,
    after: Liquify,
    keys: Seq<u128>,
    lsu_amount: i128,
    rate: i128,
    resource: crate::types::ResourceBytes,
    out: UnstakeOutcome,
)
    requires
        s.wf(),
        s.sale_in_range(keys.len() as int, lsu_amount, rate),
        after.is_sale_of(s, s.planned_fills(keys, 0, lsu_amount as int, rate as int, s.order_fill_counter as int,
            s.is_small_order(lsu_amount as int, rate as int)), lsu_amount, resource, Ok(out)),
    ensures
        after.liquidity_data@.dom() == s.liquidity_data@.dom(),
        forall|id: u64| #[trigger] s.liquidity_data@.contains_key(id) ==>
            after.liquidity_data@[id].xrd_liquidity_filled == s.liquidity_data@[id].xrd_liquidity_filled + paid_to(out.fills@, id),
{
    let small = s.is_small_order(lsu_amount as int, rate as int);
    let f = s.planned_fills(keys, 0, lsu_amount as int, rate as int, s.order_fill_counter as int, small);
    lemma_plan_entries(s, keys, 0, lsu_amount as int, rate as int, s.order_fill_counter as int, small);
    assert forall|k: int| 0 <= k < f.len() implies s.liquidity_data@.contains_key(#[trigger] f[k].receipt_id) by {
        assert(contains_key(s.buy_list@, f[k].buy_key));
        let q = choose|q: int| has_key_at(s.buy_list@, q, f[k].buy_key);
        assert(s.receipts@.contains_key(s.buy_list@[q].1));
    }
    lemma_fills_add_to_filled(s.liquidity_data@, f);
}

/// A cycle lowers the position's count of fills to collect by the number of
/// unstake NFTs it claimed (the matured ones among its first fills), not
/// below zero, and leaves every other position's count as it was; the
/// position's other fills stay collectable: exactly the claimed NFTs leave
/// the fill tree. The claimed XRD, less the automation fee, is added to the
/// position's available liquidity.
pub proof fn lemma_cycle_lowers_count_by_claimed(
    s: Liquify,
    after: Liquify,
    receipt_id: u64,
    max_fills: u64,
    claims: Seq<Option<UnstakeData>>,
    claimed_xrd: i128,
    current_epoch: u64,
    r: Result<i128, LiquifyError>,
)
    requires
        s.wf(),
        s.receipts@.contains_key(receipt_id),
        s.cycle_error(receipt_id, max_fills, claims, current_epoch) is None,
        after.cycled_position(s, receipt_id, crate::fills::matured_keys(
            first_fills(s.order_fill_tree@, receipt_id, max_fills as int), claims, current_epoch),
            claimed_xrd, current_epoch, r),
        r is Ok,
        0 <= claimed_xrd,
        s.total_xrd_locked + claimed_xrd <= crate::matching::AMOUNT_CAP,
    ensures
        ({
            let claimed_keys = crate::fills::matured_keys(first_fills(s.order_fill_tree@, receipt_id, max_fills as int), claims, current_epoch);
            let claimed = claimed_keys.len();
            let old_count = s.liquidity_data@[receipt_id].fills_to_collect as int;
            &&& after.liquidity_data@[receipt_id].fills_to_collect == if old_count >= claimed { old_count - claimed } else { 0 }
            &&& after.liquidity_data@[receipt_id].xrd_liquidity_filled == s.liquidity_data@[receipt_id].xrd_liquidity_filled
            &&& after.liquidity_data@[receipt_id].xrd_liquidity_available
                == s.liquidity_data@[receipt_id].xrd_liquidity_available + claimed_xrd - s.automation_fee
            &&& forall|id: u64| id != receipt_id && #[trigger] s.liquidity_data@.contains_key(id) ==>
                after.liquidity_data@[id] == s.liquidity_data@[id]
            &&& forall|e: (u128, UnstakeNFTOrLSU)| #[trigger] after.order_fill_tree@.contains(e)
                <==> (s.order_fill_tree@.contains(e) && !claimed_keys.contains(e.0))
        }),
{
    assert(s.liquidity_data@.contains_key(receipt_id));
    crate::sums::lemma_sum_bounds(crate::liquify::available_of(s.liquidity_data@), s.liquidity_receipt_counter as nat, receipt_id);
    let claimed_keys = crate::fills::matured_keys(first_fills(s.order_fill_tree@, receipt_id, max_fills as int), claims, current_epoch);
    lemma_remove_keys_entries(s.order_fill_tree@, claimed_keys);
}

/// Collecting from `ids[k..]`, having collected `counter` fills, ends with at
/// most the limit (or `counter`, if already past it) collected.
proof fn lemma_collect_within_limit(
    s: Liquify,
    tree: Seq<(u128, UnstakeNFTOrLSU)>,
    collected: Seq<CollectedFill>,
    updates: Seq<(u64, u64)>,
    counter: int,
    ids: Seq<u64>,
    k: nat,
    limit: int,
)
    requires
        strictly_sorted(tree),
        0 <= counter,
        collected.len() == counter,
    ensures
        s.collect_from(tree, collected, updates, counter, ids, k, limit).1.len()
            <= if counter < limit { limit } else { counter },
    decreases ids.len() - k,
{
    reveal_with_fuel(Liquify::collect_from, 1);
    if k < ids.len() {
        let id = ids[k as int];
        let fills = s.liquidity_data@[id].fills_to_collect as int;
        if fills == 0 {
            lemma_collect_within_limit(s, tree, collected, updates, counter, ids, k + 1, limit);
        } else if counter < limit {
            lemma_fill_segment(tree, id);
            let start = fills_start(tree, id);
            let end = fills_end(tree, id);
            let t = if end - start < limit - counter { end - start } else { limit - counter };
            if t <= fills {
                let rest = tree.subrange(0, start) + tree.subrange(start + t, tree.len() as int);
                assert forall|i: int, j: int| 0 <= i < j < rest.len() implies rest[i].0 < rest[j].0 by {
                    let oi = if i < start { i } else { i + t };
                    let oj = if j < start { j } else { j + t };
                    assert(rest[i] == tree[oi] && rest[j] == tree[oj]);
                }
                lemma_collect_within_limit(s, rest, collected + tag_fills(id, tree.subrange(start, start + t)),
                    updates.push((id, (fills - t) as u64)), counter + t, ids, k + 1, limit);
            }
        }
    }
}

/// Collecting hands out at most `number_of_fills_to_collect` fills in all,
/// summed over every receipt of the call.
pub proof fn lemma_collect_total_within_limit(s: Liquify, ids: Seq<u64>, limit: u64)
    requires
        s.wf(),
    ensures
        s.collect_from(s.order_fill_tree@, Seq::empty(), Seq::empty(), 0, ids, 0, limit as int).1.len() <= limit,
{
    lemma_collect_within_limit(s, s.order_fill_tree@, Seq::empty(), Seq::empty(), 0, ids, 0, limit as int);
}

/// An automated position is reported ready exactly when its claimable XRD
/// reaches its refill threshold: every report carries a position of the
/// automation list with its claimable XRD, which is at least the position's
/// refill threshold, and that XRD less the automation fee; and every
/// position of the list whose claimable XRD reaches its threshold is
/// reported.
pub proof fn lemma_ready_exactly_at_threshold(
    automated: Seq<u64>,
    claimable: Seq<i128>,
    receipts: Map<u64, LiquidityReceipt>,
    fee: i128,
)
    requires
        claimable.len() == automated.len(),
    ensures
        ({
            let r = ready_receipts(automated, claimable, receipts, fee);
            &&& forall|k: int| 0 <= k < r.len() ==> {
                &&& #[trigger] r[k].claimable_xrd >= receipts[r[k].receipt_id].refill_threshold
                &&& r[k].refill_threshold == receipts[r[k].receipt_id].refill_threshold
                &&& r[k].xrd_after_fee == #[verifier::truncate] ((r[k].claimable_xrd - fee) as i128)
                &&& exists|i: int| 0 <= i < automated.len() && automated[i] == r[k].receipt_id
                    && claimable[i] == r[k].claimable_xrd
            }
            &&& forall|i: int| 0 <= i < automated.len() && #[trigger] claimable[i] >= receipts[automated[i]].refill_threshold
                ==> exists|k: int| 0 <= k < r.len() && r[k].receipt_id == automated[i] && r[k].claimable_xrd == claimable[i]
        }),
    decreases automated.len(),
{
    if automated.len() > 0 {
        let a0 = automated.drop_last();
        let c0 = claimable.drop_last();
        lemma_ready_exactly_at_threshold(a0, c0, receipts, fee);
        let rest = ready_receipts(a0, c0, receipts, fee);
        let r = ready_receipts(automated, claimable, receipts, fee);
        let n = automated.len() - 1;
        assert forall|k: int| 0 <= k < r.len() implies {
            &&& #[trigger] r[k].claimable_xrd >= receipts[r[k].receipt_id].refill_threshold
            &&& r[k].refill_threshold == receipts[r[k].receipt_id].refill_threshold
            &&& r[k].xrd_after_fee == #[verifier::truncate] ((r[k].claimable_xrd - fee) as i128)
            &&& exists|i: int| 0 <= i < automated.len() && automated[i] == r[k].receipt_id
                && claimable[i] == r[k].claimable_xrd
        } by {
            if k < rest.len() {
                assert(r[k] == rest[k]);
                let i = choose|i: int| 0 <= i < a0.len() && a0[i] == rest[k].receipt_id && c0[i] == rest[k].claimable_xrd;
                assert(automated[i] == a0[i] && claimable[i] == c0[i]);
            } else {
                assert(automated[n] == r[k].receipt_id && claimable[n] == r[k].claimable_xrd);
            }
        }
        assert forall|i: int| 0 <= i < automated.len() && #[trigger] claimable[i] >= receipts[automated[i]].refill_threshold
            implies exists|k: int| 0 <= k < r.len() && r[k].receipt_id == automated[i] && r[k].claimable_xrd == claimable[i] by {
            if i < n {
                assert(a0[i] == automated[i] && c0[i] == claimable[i]);
                assert(c0[i] >= receipts[a0[i]].refill_threshold);
                let k = choose|k: int| 0 <= k < rest.len() && rest[k].receipt_id == a0[i] && rest[k].claimable_xrd == c0[i];
                assert(r[k] == rest[k]);
            } else {
                assert(r[r.len() - 1].receipt_id == automated[i]);
            }
        }
    }
}

/// Withdrawing changes nothing of a position's data but its available XRD,
/// which becomes zero: its fills to collect, its filled XRD and the epoch of
/// its last deposit are kept, so its fills stay collectable; other positions
/// are untouched.
pub proof fn lemma_remove_keeps_fills(s: Liquify, after: Liquify, receipt_ids: Seq<u64>, amounts: Seq<i128>)
    requires
        after.removed_positions(s, receipt_ids, amounts),
    ensures
        after.liquidity_data@.dom() == s.liquidity_data@.dom(),
        forall|id: u64| #[trigger] s.liquidity_data@.contains_key(id) ==> {
            &&& after.liquidity_data@[id].fills_to_collect == s.liquidity_data@[id].fills_to_collect
            &&& after.liquidity_data@[id].xrd_liquidity_filled == s.liquidity_data@[id].xrd_liquidity_filled
            &&& after.liquidity_data@[id].last_added_epoch == s.liquidity_data@[id].last_added_epoch
            &&& after.liquidity_data@[id].xrd_liquidity_available == if receipt_ids.contains(id) {
                0
            } else {
                s.liquidity_data@[id].xrd_liquidity_available
            }
        },
        forall|k: int| 0 <= k < receipt_ids.len() ==> #[trigger] amounts[k]
            == s.liquidity_data@[receipt_ids[k]].xrd_liquidity_available,
        after.order_fill_tree@ == s.order_fill_tree@,
{
}

/// No fill among `f` is of receipt `id`: they pay it nothing.
proof fn lemma_paid_none(f: Seq<OrderFill>, id: u64)
    requires
        forall|k: int| 0 <= k < f.len() ==> #[trigger] f[k].receipt_id != id,
    ensures
        paid_to(f, id) == 0,
    decreases f.len(),
{
    if f.len() > 0 {
        let g = f.drop_last();
        assert forall|k: int| 0 <= k < g.len() implies #[trigger] g[k].receipt_id != id by {
            assert(g[k] == f[k]);
        }
        lemma_paid_none(g, id);
        assert(f[f.len() - 1].receipt_id != id);
    }
}

/// Writing fills of distinct receipts, each leaving its position what it had
/// less what it paid, keeps each position's filled plus available XRD.
proof fn lemma_fills_keep_position_total(data: Map<u64, LiquidityData>, f: Seq<OrderFill>)
    requires
        forall|k: int| 0 <= k < f.len() ==> data.contains_key(#[trigger] f[k].receipt_id),
        forall|id: u64| #[trigger] data.contains_key(id) ==> {
            &&& i128::MIN + crate::matching::AMOUNT_CAP <= data[id].xrd_liquidity_filled
            &&& data[id].xrd_liquidity_filled <= i128::MAX - crate::matching::AMOUNT_CAP
        },
        forall|k: int| 0 <= k < f.len() ==> 0 <= #[trigger] f[k].xrd_amount,
        fills_xrd(f) <= crate::matching::AMOUNT_CAP,
        forall|k: int| 0 <= k < f.len() ==> #[trigger] f[k].new_available
            == data[f[k].receipt_id].xrd_liquidity_available - f[k].xrd_amount,
        forall|k1: int, k2: int| 0 <= k1 < k2 < f.len() ==> #[trigger] f[k1].receipt_id != #[trigger] f[k2].receipt_id,
    ensures
        forall|id: u64| #[trigger] data.contains_key(id) ==>
            apply_fills_data(data, f)[id].xrd_liquidity_filled + apply_fills_data(data, f)[id].xrd_liquidity_available
                == data[id].xrd_liquidity_filled + data[id].xrd_liquidity_available,
    decreases f.len(),
{
    if f.len() > 0 {
        let g = f.drop_last();
        let n = f.len() - 1;
        let x = f[n];
        assert forall|k: int| 0 <= k < g.len() implies data.contains_key(#[trigger] g[k].receipt_id) by {
            assert(g[k] == f[k]);
        }
        assert forall|k: int| 0 <= k < g.len() implies 0 <= #[trigger] g[k].xrd_amount by {
            assert(g[k] == f[k]);
        }
        assert forall|k: int| 0 <= k < g.len() implies #[trigger] g[k].new_available
            == data[g[k].receipt_id].xrd_liquidity_available - g[k].xrd_amount by {
            assert(g[k] == f[k]);
        }
        assert forall|k1: int, k2: int| 0 <= k1 < k2 < g.len() implies #[trigger] g[k1].receipt_id != #[trigger] g[k2].receipt_id by {
            assert(g[k1] == f[k1] && g[k2] == f[k2]);
        }
        crate::unstake::lemma_fills_xrd_prefix(f, g.len() as int);
        assert(f.take(g.len() as int) =~= g);
        lemma_fills_keep_position_total(data, g);
        lemma_fills_add_to_filled(data, g);
        lemma_paid_bounds(g);
        assert(data.contains_key(x.receipt_id));
        assert(0 <= x.xrd_amount);
        assert forall|k: int| 0 <= k < g.len() implies #[trigger] g[k].receipt_id != x.receipt_id by {
            assert(g[k] == f[k]);
        }
        lemma_paid_none(g, x.receipt_id);
        assert(x.new_available == data[x.receipt_id].xrd_liquidity_available - x.xrd_amount);
        assert(fills_xrd(f) == fills_xrd(g) + x.xrd_amount);
    }
}

/// A sale moves XRD from each position's available liquidity to its filled
/// total: every position's filled plus available XRD is the same after the
/// sale as before it.
pub proof fn lemma_sale_keeps_position_total(
    s: Liquify,
    after: Liquify,
    keys: Seq<u128>,
    lsu_amount: i128,
    rate: i128,
    resource: crate::types::ResourceBytes,
    out: UnstakeOutcome,
)
    requires
        s.wf(),
        s.sale_in_range(keys.len() as int, lsu_amount, rate),
        after.is_sale_of(s, s.planned_fills(keys, 0, lsu_amount as int, rate as int, s.order_fill_counter as int,
            s.is_small_order(lsu_amount as int, rate as int)), lsu_amount, resource, Ok(out)),
    ensures
        forall|id: u64| #[trigger] s.liquidity_data@.contains_key(id) ==>
            after.liquidity_data@[id].xrd_liquidity_filled + after.liquidity_data@[id].xrd_liquidity_available
                == s.liquidity_data@[id].xrd_liquidity_filled + s.liquidity_data@[id].xrd_liquidity_available,
{
    let small = s.is_small_order(lsu_amount as int, rate as int);
    let f = s.planned_fills(keys, 0, lsu_amount as int, rate as int, s.order_fill_counter as int, small);
    lemma_plan_entries(s, keys, 0, lsu_amount as int, rate as int, s.order_fill_counter as int, small);
    assert forall|k: int| 0 <= k < f.len() implies s.liquidity_data@.contains_key(#[trigger] f[k].receipt_id) by {
        assert(contains_key(s.buy_list@, f[k].buy_key));
        let q = choose|q: int| has_key_at(s.buy_list@, q, f[k].buy_key);
        assert(s.receipts@.contains_key(s.buy_list@[q].1));
    }
    lemma_fills_keep_position_total(s.liquidity_data@, f);
}

/// The number of fills among `f` of receipt `id`.
pub open spec fn fill_count(f: Seq<OrderFill>, id: u64) -> int
    decreases f.len(),
{
    if f.len() == 0 {
        0
    } else {
        fill_count(f.drop_last(), id) + if f.last().receipt_id == id { 1int } else { 0 }
    }
}

/// No fill among `f` is of receipt `id`: they count none for it.
proof fn lemma_count_none(f: Seq<OrderFill>, id: u64)
    requires
        forall|k: int| 0 <= k < f.len() ==> #[trigger] f[k].receipt_id != id,
    ensures
        fill_count(f, id) == 0,
    decreases f.len(),
{
    if f.len() > 0 {
        let g = f.drop_last();
        assert forall|k: int| 0 <= k < g.len() implies #[trigger] g[k].receipt_id != id by {
            assert(g[k] == f[k]);
        }
        lemma_count_none(g, id);
        assert(f[f.len() - 1].receipt_id != id);
    }
}

/// Writing fills of distinct receipts, each setting its position's count of
/// fills to collect one above what it was, adds to each position's count the
/// number of its fills.
proof fn lemma_fills_add_to_count(data: Map<u64, LiquidityData>, f: Seq<OrderFill>)
    requires
        forall|k: int| 0 <= k < f.len() ==> data.contains_key(#[trigger] f[k].receipt_id),
        forall|k: int| 0 <= k < f.len() ==> #[trigger] f[k].new_fills == data[f[k].receipt_id].fills_to_collect + 1,
        forall|k1: int, k2: int| 0 <= k1 < k2 < f.len() ==> #[trigger] f[k1].receipt_id != #[trigger] f[k2].receipt_id,
    ensures
        forall|id: u64| #[trigger] data.contains_key(id) ==> apply_fills_data(data, f)[id].fills_to_collect
            == data[id].fills_to_collect + fill_count(f, id),
    decreases f.len(),
{
    if f.len() > 0 {
        let g = f.drop_last();
        let x = f[f.len() - 1];
        assert forall|k: int| 0 <= k < g.len() implies data.contains_key(#[trigger] g[k].receipt_id) by {
            assert(g[k] == f[k]);
        }
        assert forall|k: int| 0 <= k < g.len() implies #[trigger] g[k].new_fills == data[g[k].receipt_id].fills_to_collect + 1 by {
            assert(g[k] == f[k]);
        }
        assert forall|k1: int, k2: int| 0 <= k1 < k2 < g.len() implies #[trigger] g[k1].receipt_id != #[trigger] g[k2].receipt_id by {
            assert(g[k1] == f[k1] && g[k2] == f[k2]);
        }
        lemma_fills_add_to_count(data, g);
        assert forall|k: int| 0 <= k < g.len() implies #[trigger] g[k].receipt_id != x.receipt_id by {
            assert(g[k] == f[k]);
        }
        lemma_count_none(g, x.receipt_id);
        assert(data.contains_key(x.receipt_id));
        assert(x.new_fills == data[x.receipt_id].fills_to_collect + 1);
    }
}

/// Each fill of a sale gives its position one more fill to collect: after a
/// sale of `lsu_amount` LSUs to the positions under `keys`, every position's
/// `fills_to_collect` is its count before plus the number of fills it took
/// among those the sale reports (one for a position that took LSUs, none for
/// the others).
pub proof fn lemma_sale_counts_fills(
    s: Liquify,
    after: Liquify,
    keys: Seq<u128>,
    lsu_amount: i128,
    rate: i128,
    resource: crate::types::ResourceBytes,
    out: UnstakeOutcome,
)
    requires
        s.wf(),
        s.sale_in_range(keys.len() as int, lsu_amount, rate),
        after.is_sale_of(s, s.planned_fills(keys, 0, lsu_amount as int, rate as int, s.order_fill_counter as int,
            s.is_small_order(lsu_amount as int, rate as int)), lsu_amount, resource, Ok(out)),
    ensures
        forall|id: u64| #[trigger] s.liquidity_data@.contains_key(id) ==> {
            &&& after.liquidity_data@[id].fills_to_collect == s.liquidity_data@[id].fills_to_collect + fill_count(out.fills@, id)
            &&& 0 <= fill_count(out.fills@, id) <= 1
        },
{
    let small = s.is_small_order(lsu_amount as int, rate as int);
    let f = s.planned_fills(keys, 0, lsu_amount as int, rate as int, s.order_fill_counter as int, small);
    lemma_plan_entries(s, keys, 0, lsu_amount as int, rate as int, s.order_fill_counter as int, small);
    assert forall|k: int| 0 <= k < f.len() implies s.liquidity_data@.contains_key(#[trigger] f[k].receipt_id) by {
        assert(contains_key(s.buy_list@, f[k].buy_key));
        let q = choose|q: int| has_key_at(s.buy_list@, q, f[k].buy_key);
        assert(s.receipts@.contains_key(s.buy_list@[q].1));
    }
    assert forall|k: int| 0 <= k < f.len() implies #[trigger] f[k].new_fills == s.liquidity_data@[f[k].receipt_id].fills_to_collect + 1 by {
        assert(contains_key(s.buy_list@, f[k].buy_key));
        assert(s.liquidity_data@.contains_key(f[k].receipt_id));
        assert(s.liquidity_data@[f[k].receipt_id].fills_to_collect < u64::MAX);
    }
    lemma_fills_add_to_count(s.liquidity_data@, f);
    assert forall|id: u64| #[trigger] s.liquidity_data@.contains_key(id) implies 0 <= fill_count(f, id) <= 1 by {
        lemma_count_at_most_one(f, id);
    }
}

/// Among fills of distinct receipts, a receipt has at most one.
proof fn lemma_count_at_most_one(f: Seq<OrderFill>, id: u64)
    requires
        forall|k1: int, k2: int| 0 <= k1 < k2 < f.len() ==> #[trigger] f[k1].receipt_id != #[trigger] f[k2].receipt_id,
    ensures
        0 <= fill_count(f, id) <= 1,
    decreases f.len(),
{
    if f.len() > 0 {
        let g = f.drop_last();
        assert forall|k1: int, k2: int| 0 <= k1 < k2 < g.len() implies #[trigger] g[k1].receipt_id != #[trigger] g[k2].receipt_id by {
            assert(g[k1] == f[k1] && g[k2] == f[k2]);
        }
        lemma_count_at_most_one(g, id);
        if f[f.len() - 1].receipt_id == id {
            assert forall|k: int| 0 <= k < g.len() implies #[trigger] g[k].receipt_id != id by {
                assert(g[k] == f[k]);
            }
            lemma_count_none(g, id);
        }
    }
}

/// Storing `value` under `key` in entries kept in key order keeps them in
/// key order, adds `key`, keeps every other key, and holds `value` under `key`.
proof fn lemma_map_insert_keys<V>(s: Seq<(u128, V)>, key: u128, value: V)
    requires
        strictly_sorted(s),
    ensures
        strictly_sorted(map_insert(s, key, value)),
        forall|k: u128| #[trigger] contains_key(map_insert(s, key, value), k) <==> (contains_key(s, k) || k == key),
        has_key_at(map_insert(s, key, value), count_below(s, key), key),
        map_insert(s, key, value)[count_below(s, key)].1 == value,
{
    lemma_count_below_bound(s, key);
    let p = count_below(s, key);
    let r = map_insert(s, key, value);
    if contains_key(s, key) {
        let q = choose|q: int| has_key_at(s, q, key);
        assert(q == p) by {
            if q < p {
            } else if q > p {
                assert(s[p].0 < s[q].0);
            }
        }
        assert forall|k: u128| #[trigger] contains_key(r, k) <==> (contains_key(s, k) || k == key) by {
            if contains_key(s, k) {
                let i = choose|i: int| has_key_at(s, i, k);
                assert(has_key_at(r, i, k));
            }
            if contains_key(r, k) {
                let i = choose|i: int| has_key_at(r, i, k);
                if i != p {
                    assert(has_key_at(s, i, k));
                }
            }
            if k == key {
                assert(has_key_at(r, p, k));
            }
        }
    } else {
        assert forall|i: int, j: int| 0 <= i < j < r.len() implies r[i].0 < r[j].0 by {
            let oi = if i < p { i } else { i - 1 };
            let oj = if j < p { j } else { j - 1 };
            if i != p && j != p {
                assert(r[i] == s[oi] && r[j] == s[oj]);
            } else if i == p {
                assert(r[j] == s[oj]);
                assert(s[oj].0 != key) by {
                    assert(!has_key_at(s, oj, key));
                }
            } else {
                assert(r[i] == s[oi]);
            }
        }
        assert forall|k: u128| #[trigger] contains_key(r, k) <==> (contains_key(s, k) || k == key) by {
            if contains_key(s, k) {
                let i = choose|i: int| has_key_at(s, i, k);
                if i < p {
                    assert(has_key_at(r, i, k));
                } else {
                    assert(has_key_at(r, i + 1, k));
                }
            }
            if contains_key(r, k) {
                let i = choose|i: int| has_key_at(r, i, k);
                if i < p {
                    assert(has_key_at(s, i, k));
                } else if i > p {
                    assert(has_key_at(s, i - 1, k));
                }
            }
            if k == key {
                assert(has_key_at(r, p, k));
            }
        }
    }
}

/// Removing the entry under `key` from entries kept in key order keeps them
/// in key order and removes exactly the entries under `key`.
proof fn lemma_map_remove_entries<V>(s: Seq<(u128, V)>, key: u128)
    requires
        strictly_sorted(s),
    ensures
        strictly_sorted(map_remove(s, key)),
        forall|e: (u128, V)| #[trigger] map_remove(s, key).contains(e) <==> (s.contains(e) && e.0 != key),
{
    lemma_count_below_bound(s, key);
    let p = count_below(s, key);
    let r = map_remove(s, key);
    if contains_key(s, key) {
        let q = choose|q: int| has_key_at(s, q, key);
        assert(q == p) by {
            if q < p {
            } else if q > p {
                assert(s[p].0 < s[q].0);
            }
        }
        assert forall|i: int, j: int| 0 <= i < j < r.len() implies r[i].0 < r[j].0 by {
            let oi = if i < p { i } else { i + 1 };
            let oj = if j < p { j } else { j + 1 };
            assert(r[i] == s[oi] && r[j] == s[oj]);
        }
        assert forall|e: (u128, V)| #[trigger] r.contains(e) <==> (s.contains(e) && e.0 != key) by {
            if r.contains(e) {
                let i = choose|i: int| 0 <= i < r.len() && r[i] == e;
                let oi = if i < p { i } else { i + 1 };
                assert(r[i] == s[oi]);
                assert(s[oi].0 != key) by {
                    if oi < p {
                    } else {
                        assert(s[p].0 < s[oi].0);
                    }
                }
            }
            if s.contains(e) && e.0 != key {
                let i = choose|i: int| 0 <= i < s.len() && s[i] == e;
                assert(i != p);
                if i < p {
                    assert(r[i] == e);
                } else {
                    assert(r[i - 1] == e);
                }
            }
        }
    } else {
        assert forall|e: (u128, V)| #[trigger] r.contains(e) <==> (s.contains(e) && e.0 != key) by {
            if s.contains(e) {
                let i = choose|i: int| 0 <= i < s.len() && s[i] == e;
                assert(!has_key_at(s, i, key));
            }
        }
    }
}

/// Removing the entries under `keys` from entries kept in key order keeps
/// exactly the entries whose key is not among `keys`.
proof fn lemma_remove_keys_entries<V>(s: Seq<(u128, V)>, keys: Seq<u128>)
    requires
        strictly_sorted(s),
    ensures
        strictly_sorted(remove_keys(s, keys)),
        forall|e: (u128, V)| #[trigger] remove_keys(s, keys).contains(e) <==> (s.contains(e) && !keys.contains(e.0)),
    decreases keys.len(),
{
    if keys.len() > 0 {
        let ks = keys.drop_last();
        lemma_remove_keys_entries(s, ks);
        lemma_map_remove_entries(remove_keys(s, ks), keys.last());
        assert forall|e: (u128, V)| #[trigger] remove_keys(s, keys).contains(e) <==> (s.contains(e) && !keys.contains(e.0)) by {
            if keys.contains(e.0) {
                let i = choose|i: int| 0 <= i < keys.len() && keys[i] == e.0;
                if i < ks.len() {
                    assert(ks[i] == e.0);
                }
            }
            if ks.contains(e.0) {
                let i = choose|i: int| 0 <= i < ks.len() && ks[i] == e.0;
                assert(keys[i] == e.0);
            }
            if e.0 == keys.last() {
                assert(keys[keys.len() - 1] == e.0);
            }
        }
    }
}

/// Storing the fills held as LSUs keeps the entries in key order and every
/// key there was, and puts under each such fill's key its LSUs.
proof fn lemma_lsu_fills_stored(s: Seq<(u128, UnstakeNFTOrLSU)>, f: Seq<OrderFill>, resource: crate::types::ResourceBytes)
    requires
        strictly_sorted(s),
    ensures
        strictly_sorted(insert_lsu_fills(s, f, resource)),
        forall|k: u128| contains_key(s, k) ==> #[trigger] contains_key(insert_lsu_fills(s, f, resource), k),
        forall|k: int| 0 <= k < f.len() && !(#[trigger] f[k]).auto_unstake ==>
            contains_key(insert_lsu_fills(s, f, resource), f[k].fill_key),
    decreases f.len(),
{
    if f.len() > 0 {
        let g = f.drop_last();
        let x = f.last();
        lemma_lsu_fills_stored(s, g, resource);
        let r = insert_lsu_fills(s, g, resource);
        if !x.auto_unstake {
            lemma_map_insert_keys(r, x.fill_key, UnstakeNFTOrLSU::LSU(LSUData { resource_address: resource, amount: x.lsu_amount }));
        }
        assert forall|k: int| 0 <= k < f.len() && !(#[trigger] f[k]).auto_unstake implies
            contains_key(insert_lsu_fills(s, f, resource), f[k].fill_key) by {
            if k < g.len() {
                assert(g[k] == f[k]);
                assert(contains_key(r, g[k].fill_key));
            }
        }
    }
}

/// The keys of the fills with auto unstake are among those `unstake_keys` lists.
proof fn lemma_unstake_keys_listed(f: Seq<OrderFill>)
    ensures
        forall|k: int| 0 <= k < f.len() && (#[trigger] f[k]).auto_unstake ==> unstake_keys(f).contains(f[k].fill_key),
    decreases f.len(),
{
    if f.len() > 0 {
        let g = f.drop_last();
        lemma_unstake_keys_listed(g);
        assert forall|k: int| 0 <= k < f.len() && (#[trigger] f[k]).auto_unstake implies unstake_keys(f).contains(f[k].fill_key) by {
            if k < g.len() {
                assert(g[k] == f[k]);
                let i = choose|i: int| 0 <= i < unstake_keys(g).len() && unstake_keys(g)[i] == g[k].fill_key;
                if f.last().auto_unstake {
                    assert(unstake_keys(f)[i] == unstake_keys(g)[i]);
                }
            } else {
                let u = unstake_keys(f);
                assert(u[u.len() - 1] == f[k].fill_key);
            }
        }
    }
}

/// Every fill of a sale is kept for its position: a fill held as LSUs is
/// in the fill tree under its key afterwards, and the key of a fill whose
/// LSUs are unstaked awaits its unstake NFT among the pending fills; the
/// fills already in the tree stay there.
pub proof fn lemma_sale_keeps_every_fill(
    s: Liquify,
    after: Liquify,
    keys: Seq<u128>,
    lsu_amount: i128,
    rate: i128,
    resource: crate::types::ResourceBytes,
    out: UnstakeOutcome,
)
    requires
        s.wf(),
        after.is_sale_of(s, s.planned_fills(keys, 0, lsu_amount as int, rate as int, s.order_fill_counter as int,
            s.is_small_order(lsu_amount as int, rate as int)), lsu_amount, resource, Ok(out)),
    ensures
        forall|k: int| 0 <= k < out.fills@.len() && !(#[trigger] out.fills@[k]).auto_unstake ==>
            contains_key(after.order_fill_tree@, out.fills@[k].fill_key),
        forall|k: int| 0 <= k < out.fills@.len() && (#[trigger] out.fills@[k]).auto_unstake ==>
            after.pending_unstake_fills@.contains(out.fills@[k].fill_key),
        forall|k: u128| #[trigger] contains_key(s.order_fill_tree@, k) ==> contains_key(after.order_fill_tree@, k),
{
    let f = out.fills@;
    lemma_lsu_fills_stored(s.order_fill_tree@, f, resource);
    lemma_unstake_keys_listed(f);
    let old_p = s.pending_unstake_fills@;
    assert forall|k: int| 0 <= k < f.len() && (#[trigger] f[k]).auto_unstake implies
        after.pending_unstake_fills@.contains(f[k].fill_key) by {
        let u = unstake_keys(f);
        let i = choose|i: int| 0 <= i < u.len() && u[i] == f[k].fill_key;
        assert(after.pending_unstake_fills@[old_p.len() + i] == f[k].fill_key);
    }
}

/// Increasing a position adds the XRD to its available liquidity alone: its
/// filled XRD and its fills to collect are kept, every other position is
/// untouched, and the locked total grows by the amount.
pub proof fn lemma_increase_adds_to_available(s: Liquify, after: Liquify, id: u64, amount: i128, current_epoch: u64)
    requires
        s.wf(),
        s.receipts@.contains_key(id),
        after.is_refill_of(s, id, amount, current_epoch),
    ensures
        after.liquidity_data@.dom() == s.liquidity_data@.dom(),
        after.liquidity_data@[id].xrd_liquidity_available == s.liquidity_data@[id].xrd_liquidity_available + amount,
        after.liquidity_data@[id].xrd_liquidity_filled == s.liquidity_data@[id].xrd_liquidity_filled,
        after.liquidity_data@[id].fills_to_collect == s.liquidity_data@[id].fills_to_collect,
        forall|j: u64| j != id && #[trigger] s.liquidity_data@.contains_key(j) ==> after.liquidity_data@[j] == s.liquidity_data@[j],
        after.total_xrd_locked == s.total_xrd_locked + amount,
{
    assert(s.liquidity_data@.contains_key(id));
    assert(after.liquidity_data@.dom() =~= s.liquidity_data@.dom());
    crate::sums::lemma_sum_bounds(crate::liquify::available_of(s.liquidity_data@), s.liquidity_receipt_counter as nat, id);
}

/// Storing `value` under `key` in entries kept in key order holds
/// `(key, value)` afterwards and keeps every entry under another key.
proof fn lemma_map_insert_entries<V>(s: Seq<(u128, V)>, key: u128, value: V)
    requires
        strictly_sorted(s),
    ensures
        strictly_sorted(map_insert(s, key, value)),
        map_insert(s, key, value).contains((key, value)),
        forall|e: (u128, V)| e.0 != key ==> (#[trigger] map_insert(s, key, value).contains(e) <==> s.contains(e)),
{
    lemma_map_insert_keys(s, key, value);
    lemma_count_below_bound(s, key);
    let p = count_below(s, key);
    let r = map_insert(s, key, value);
    assert(r[p] == (key, value));
    assert forall|e: (u128, V)| e.0 != key implies (#[trigger] r.contains(e) <==> s.contains(e)) by {
        if contains_key(s, key) {
            if r.contains(e) {
                let i = choose|i: int| 0 <= i < r.len() && r[i] == e;
                assert(i != p);
                assert(s[i] == e);
            }
            if s.contains(e) {
                let i = choose|i: int| 0 <= i < s.len() && s[i] == e;
                let q = choose|q: int| has_key_at(s, q, key);
                assert(q == p) by {
                    if q < p {
                    } else if q > p {
                        assert(s[p].0 < s[q].0);
                    }
                }
                assert(i != p);
                assert(r[i] == e);
            }
        } else {
            if r.contains(e) {
                let i = choose|i: int| 0 <= i < r.len() && r[i] == e;
                if i < p {
                    assert(s[i] == e);
                } else {
                    assert(s[i - 1] == e);
                }
            }
            if s.contains(e) {
                let i = choose|i: int| 0 <= i < s.len() && s[i] == e;
                if i < p {
                    assert(r[i] == e);
                } else {
                    assert(r[i + 1] == e);
                }
            }
        }
    }
}

/// Storing unstake NFTs under distinct keys holds each under its key and
/// keeps every entry under a key that none of them has.
proof fn lemma_nft_fills_stored(s: Seq<(u128, UnstakeNFTOrLSU)>, nfts: Seq<(u128, crate::types::UnstakeNFTData)>)
    requires
        strictly_sorted(s),
        forall|k1: int, k2: int| 0 <= k1 < k2 < nfts.len() ==> #[trigger] nfts[k1].0 != #[trigger] nfts[k2].0,
    ensures
        strictly_sorted(insert_nft_fills(s, nfts)),
        forall|k: int| 0 <= k < nfts.len() ==> insert_nft_fills(s, nfts).contains(
            ((#[trigger] nfts[k]).0, UnstakeNFTOrLSU::UnstakeNFT(nfts[k].1))),
        forall|e: (u128, UnstakeNFTOrLSU)| #[trigger] s.contains(e) && !crate::unstake::recorded(nfts, e.0)
            ==> insert_nft_fills(s, nfts).contains(e),
    decreases nfts.len(),
{
    if nfts.len() > 0 {
        let g = nfts.drop_last();
        let x = nfts.last();
        assert forall|k1: int, k2: int| 0 <= k1 < k2 < g.len() implies #[trigger] g[k1].0 != #[trigger] g[k2].0 by {
            assert(g[k1] == nfts[k1] && g[k2] == nfts[k2]);
        }
        lemma_nft_fills_stored(s, g);
        let r = insert_nft_fills(s, g);
        lemma_map_insert_entries(r, x.0, UnstakeNFTOrLSU::UnstakeNFT(x.1));
        assert forall|k: int| 0 <= k < nfts.len() implies insert_nft_fills(s, nfts).contains(
            ((#[trigger] nfts[k]).0, UnstakeNFTOrLSU::UnstakeNFT(nfts[k].1))) by {
            if k < g.len() {
                assert(g[k] == nfts[k]);
                assert(nfts[k].0 != nfts[nfts.len() - 1].0);
            }
        }
        assert forall|e: (u128, UnstakeNFTOrLSU)| #[trigger] s.contains(e) && !crate::unstake::recorded(nfts, e.0)
            implies insert_nft_fills(s, nfts).contains(e) by {
            assert(!crate::unstake::recorded(g, e.0)) by {
                if crate::unstake::recorded(g, e.0) {
                    let i = choose|i: int| 0 <= i < g.len() && g[i].0 == e.0;
                    assert(nfts[i] == g[i]);
                }
            }
            assert(e.0 != nfts[nfts.len() - 1].0);
        }
    }
}

/// The keys left pending are exactly the pending keys that no NFT records.
proof fn lemma_unrecorded_keys(p: Seq<u128>, nfts: Seq<(u128, crate::types::UnstakeNFTData)>)
    ensures
        forall|x: u128| #[trigger] crate::unstake::unrecorded(p, nfts).contains(x)
            <==> (p.contains(x) && !crate::unstake::recorded(nfts, x)),
    decreases p.len(),
{
    if p.len() > 0 {
        let q = p.drop_last();
        lemma_unrecorded_keys(q, nfts);
        let u = crate::unstake::unrecorded(p, nfts);
        let uq = crate::unstake::unrecorded(q, nfts);
        assert forall|x: u128| #[trigger] u.contains(x) <==> (p.contains(x) && !crate::unstake::recorded(nfts, x)) by {
            if uq.contains(x) {
                let i = choose|i: int| 0 <= i < uq.len() && uq[i] == x;
                assert(u[i] == x);
                let j = choose|j: int| 0 <= j < q.len() && q[j] == x;
                assert(p[j] == x);
            }
            if u.contains(x) && !uq.contains(x) {
                let i = choose|i: int| 0 <= i < u.len() && u[i] == x;
                assert(i == u.len() - 1);
                assert(p[p.len() - 1] == x);
            }
            if p.contains(x) && !crate::unstake::recorded(nfts, x) {
                let j = choose|j: int| 0 <= j < p.len() && p[j] == x;
                if j < q.len() {
                    assert(q[j] == x);
                } else {
                    assert(u[u.len() - 1] == x);
                }
            }
        }
    }
}

/// Recording the unstake NFTs of a sale makes them collectable: after
/// `record_unstake_fills(nfts)` each NFT is in the fill tree under the key of
/// its fill, every entry the tree had under another key stays, and the keys
/// still pending are exactly the pending keys that no NFT was recorded for.
pub proof fn lemma_recorded_nfts_collectable(s: Liquify, after: Liquify, nfts: Seq<(u128, crate::types::UnstakeNFTData)>)
    requires
        s.wf(),
        forall|k1: int, k2: int| 0 <= k1 < k2 < nfts.len() ==> #[trigger] nfts[k1].0 != #[trigger] nfts[k2].0,
        after.order_fill_tree@ == insert_nft_fills(s.order_fill_tree@, nfts),
        after.pending_unstake_fills@ == crate::unstake::unrecorded(s.pending_unstake_fills@, nfts),
    ensures
        forall|k: int| 0 <= k < nfts.len() ==> after.order_fill_tree@.contains(
            ((#[trigger] nfts[k]).0, UnstakeNFTOrLSU::UnstakeNFT(nfts[k].1))),
        forall|e: (u128, UnstakeNFTOrLSU)| #[trigger] s.order_fill_tree@.contains(e) && !crate::unstake::recorded(nfts, e.0)
            ==> after.order_fill_tree@.contains(e),
        forall|x: u128| #[trigger] after.pending_unstake_fills@.contains(x)
            <==> (s.pending_unstake_fills@.contains(x) && !crate::unstake::recorded(nfts, x)),
{
    lemma_nft_fills_stored(s.order_fill_tree@, nfts);
    lemma_unrecorded_keys(s.pending_unstake_fills@, nfts);
}

/// A new position starts with its whole deposit available, nothing filled
/// and no fills to collect, and is on the buy list under the key of its
/// discount, the current epoch and its receipt number.
pub proof fn lemma_new_position_starts_empty(
    s: Liquify,
    after: Liquify,
    xrd_amount: i128,
    discount: i128,
    auto_unstake: bool,
    auto_refill: bool,
    refill_threshold: i128,
    current_epoch: u64,
    id: u64,
)
    requires
        s.wf(),
        after.added_position(s, xrd_amount, discount, auto_unstake, auto_refill, refill_threshold, current_epoch, id),
    ensures
        after.liquidity_data@.contains_key(id),
        after.liquidity_data@[id].xrd_liquidity_available == xrd_amount,
        after.liquidity_data@[id].xrd_liquidity_filled == 0,
        after.liquidity_data@[id].fills_to_collect == 0,
        after.buy_list@.contains((buy_key(discount as int, #[verifier::truncate] (current_epoch as u32), id) as u128, id)),
        forall|j: u64| j != id && #[trigger] s.liquidity_data@.contains_key(j) ==> after.liquidity_data@[j] == s.liquidity_data@[j],
{
    let key = buy_key(discount as int, #[verifier::truncate] (current_epoch as u32), id) as u128;
    let b = s.buy_list@;
    let p = count_below(b, key);
    crate::ordered_map::lemma_count_below_bound(b, key);
    assert(after.buy_list@[p] == (key, id));
}

/// The number of collected fills, among `c`, of receipt `id`.
pub open spec fn collected_count(c: Seq<CollectedFill>, id: u64) -> int
    decreases c.len(),
{
    if c.len() == 0 {
        0
    } else {
        collected_count(c.drop_last(), id) + if c.last().receipt_id == id { 1int } else { 0 }
    }
}

/// Counting over two lists of collected fills adds up.
proof fn lemma_collected_count_add(a: Seq<CollectedFill>, b: Seq<CollectedFill>, id: u64)
    ensures
        collected_count(a + b, id) == collected_count(a, id) + collected_count(b, id),
    decreases b.len(),
{
    if b.len() > 0 {
        lemma_collected_count_add(a, b.drop_last(), id);
        assert((a + b).drop_last() =~= a + b.drop_last());
    }
}

/// The fills collected for receipt `id` count for it alone.
proof fn lemma_tagged_count(id: u64, f: Seq<(u128, UnstakeNFTOrLSU)>, other: u64)
    ensures
        collected_count(tag_fills(id, f), id) == f.len(),
        other != id ==> collected_count(tag_fills(id, f), other) == 0,
    decreases f.len(),
{
    if f.len() > 0 {
        let g = f.drop_last();
        lemma_tagged_count(id, g, other);
        assert(tag_fills(id, f).drop_last() =~= tag_fills(id, g));
    }
}

/// Collecting from `ids[k..]`, when so far every position's count plus the
/// fills collected for it is its count before and positions still to come
/// have neither, ends (unless it fails) with the same holding of all.
proof fn lemma_collect_counts_from(
    s: Liquify,
    tree: Seq<(u128, UnstakeNFTOrLSU)>,
    collected: Seq<CollectedFill>,
    updates: Seq<(u64, u64)>,
    counter: int,
    ids: Seq<u64>,
    k: nat,
    limit: int,
)
    requires
        strictly_sorted(tree),
        ids.no_duplicates(),
        forall|j: int| 0 <= j < ids.len() ==> s.liquidity_data@.contains_key(#[trigger] ids[j]),
        apply_fill_counts(s.liquidity_data@, updates).dom() == s.liquidity_data@.dom(),
        forall|id: u64| #[trigger] s.liquidity_data@.contains_key(id) ==> {
            let d = apply_fill_counts(s.liquidity_data@, updates)[id];
            &&& d.fills_to_collect + collected_count(collected, id) == s.liquidity_data@[id].fills_to_collect
            &&& d.xrd_liquidity_available == s.liquidity_data@[id].xrd_liquidity_available
            &&& d.xrd_liquidity_filled == s.liquidity_data@[id].xrd_liquidity_filled
            &&& d.last_added_epoch == s.liquidity_data@[id].last_added_epoch
        },
        forall|j: int| k <= j < ids.len() ==> collected_count(collected, #[trigger] ids[j]) == 0
            && apply_fill_counts(s.liquidity_data@, updates)[ids[j]] == s.liquidity_data@[ids[j]],
    ensures
        ({
            let (t, c, u, failed) = s.collect_from(tree, collected, updates, counter, ids, k, limit);
            !failed ==> {
                &&& apply_fill_counts(s.liquidity_data@, u).dom() == s.liquidity_data@.dom()
                &&& forall|id: u64| #[trigger] s.liquidity_data@.contains_key(id) ==> {
                    let d = apply_fill_counts(s.liquidity_data@, u)[id];
                    &&& d.fills_to_collect + collected_count(c, id) == s.liquidity_data@[id].fills_to_collect
                    &&& d.xrd_liquidity_available == s.liquidity_data@[id].xrd_liquidity_available
                    &&& d.xrd_liquidity_filled == s.liquidity_data@[id].xrd_liquidity_filled
                    &&& d.last_added_epoch == s.liquidity_data@[id].last_added_epoch
                }
            }
        }),
    decreases ids.len() - k,
{
    reveal_with_fuel(Liquify::collect_from, 1);
    if k < ids.len() {
        let id = ids[k as int];
        let fills = s.liquidity_data@[id].fills_to_collect as int;
        if fills == 0 {
            lemma_collect_counts_from(s, tree, collected, updates, counter, ids, k + 1, limit);
        } else if counter < limit {
            lemma_fill_segment(tree, id);
            let start = fills_start(tree, id);
            let end = fills_end(tree, id);
            let t = if end - start < limit - counter { end - start } else { limit - counter };
            if t <= fills {
                let data = s.liquidity_data@;
                let piece = tree.subrange(start, start + t);
                let c2 = collected + tag_fills(id, piece);
                let u2 = updates.push((id, (fills - t) as u64));
                let d1 = apply_fill_counts(data, updates);
                assert(u2.drop_last() =~= updates);
                assert(apply_fill_counts(data, u2) == d1.insert(id, LiquidityData { fills_to_collect: (fills - t) as u64, ..d1[id] }));
                assert(ids[k as int] == id);
                assert(collected_count(collected, id) == 0);
                assert(d1[id] == data[id]);
                assert(apply_fill_counts(data, u2).dom() =~= data.dom());
                assert forall|x: u64| #[trigger] data.contains_key(x) implies {
                    let d = apply_fill_counts(data, u2)[x];
                    &&& d.fills_to_collect + collected_count(c2, x) == data[x].fills_to_collect
                    &&& d.xrd_liquidity_available == data[x].xrd_liquidity_available
                    &&& d.xrd_liquidity_filled == data[x].xrd_liquidity_filled
                    &&& d.last_added_epoch == data[x].last_added_epoch
                } by {
                    lemma_collected_count_add(collected, tag_fills(id, piece), x);
                    lemma_tagged_count(id, piece, x);
                }
                assert forall|j: int| k + 1 <= j < ids.len() implies collected_count(c2, #[trigger] ids[j]) == 0
                    && apply_fill_counts(data, u2)[ids[j]] == data[ids[j]] by {
                    assert(ids[j] != id);
                    lemma_collected_count_add(collected, tag_fills(id, piece), ids[j]);
                    lemma_tagged_count(id, piece, ids[j]);
                }
                let rest = tree.subrange(0, start) + tree.subrange(start + t, tree.len() as int);
                assert forall|i: int, j: int| 0 <= i < j < rest.len() implies rest[i].0 < rest[j].0 by {
                    let oi = if i < start { i } else { i + t };
                    let oj = if j < start { j } else { j + t };
                    assert(rest[i] == tree[oi] && rest[j] == tree[oj]);
                }
                lemma_collect_counts_from(s, rest, c2, u2, counter + t, ids, k + 1, limit);
            }
        }
    }
}

/// Collecting lowers each position's count of fills to collect by the number
/// of its fills handed out, and changes nothing else of any position: after
/// `collect_fills(ids, limit)` succeeds, every position's count plus the
/// fills collected for it is its count before, and its available and filled
/// XRD are kept.
pub proof fn lemma_collect_lowers_counts(s: Liquify, ids: Seq<u64>, limit: u64)
    requires
        s.wf(),
        ids.no_duplicates(),
        forall|j: int| 0 <= j < ids.len() ==> s.receipts@.contains_key(#[trigger] ids[j]),
    ensures
        ({
            let (t, c, u, failed) = s.collect_from(s.order_fill_tree@, Seq::empty(), Seq::empty(), 0, ids, 0, limit as int);
            !failed ==> forall|id: u64| #[trigger] s.liquidity_data@.contains_key(id) ==> {
                let d = apply_fill_counts(s.liquidity_data@, u)[id];
                &&& d.fills_to_collect + collected_count(c, id) == s.liquidity_data@[id].fills_to_collect
                &&& d.xrd_liquidity_available == s.liquidity_data@[id].xrd_liquidity_available
                &&& d.xrd_liquidity_filled == s.liquidity_data@[id].xrd_liquidity_filled
            }
        }),
{
    assert forall|j: int| 0 <= j < ids.len() implies s.liquidity_data@.contains_key(#[trigger] ids[j]) by {
        assert(s.receipts@.contains_key(ids[j]));
    }
    lemma_collect_counts_from(s, s.order_fill_tree@, Seq::empty(), Seq::empty(), 0, ids, 0, limit as int);
}

/// Removing the entry under `key` from entries kept in key order keeps them
/// in key order and removes `key` alone.
proof fn lemma_map_remove_keys<V>(s: Seq<(u128, V)>, key: u128)
    requires
        strictly_sorted(s),
    ensures
        strictly_sorted(map_remove(s, key)),
        forall|k: u128| #[trigger] contains_key(map_remove(s, key), k) <==> (contains_key(s, k) && k != key),
{
    lemma_map_remove_entries(s, key);
    let r = map_remove(s, key);
    assert forall|k: u128| #[trigger] contains_key(r, k) <==> (contains_key(s, k) && k != key) by {
        if contains_key(r, k) {
            let i = choose|i: int| has_key_at(r, i, k);
            assert(r.contains(r[i]));
            let j = choose|j: int| 0 <= j < s.len() && s[j] == r[i];
            assert(has_key_at(s, j, k));
        }
        if contains_key(s, k) && k != key {
            let i = choose|i: int| has_key_at(s, i, k);
            assert(s.contains(s[i]));
            assert(r.contains(s[i]));
            let j = choose|j: int| 0 <= j < r.len() && r[j] == s[i];
            assert(has_key_at(r, j, k));
        }
    }
}

/// Whether one of the fills `f` drains the position under `key`.
pub open spec fn drains(f: Seq<OrderFill>, key: u128) -> bool {
    exists|k: int| 0 <= k < f.len() && f[k].buy_key == key && f[k].new_available == 0
}

/// Taking out of the buy list the positions the fills drain removes exactly
/// their keys.
proof fn lemma_remove_exhausted_keys(s: Seq<(u128, u64)>, f: Seq<OrderFill>)
    requires
        strictly_sorted(s),
    ensures
        strictly_sorted(crate::unstake::remove_exhausted(s, f)),
        forall|key: u128| #[trigger] contains_key(crate::unstake::remove_exhausted(s, f), key)
            <==> (contains_key(s, key) && !drains(f, key)),
    decreases f.len(),
{
    if f.len() > 0 {
        let g = f.drop_last();
        let x = f.last();
        lemma_remove_exhausted_keys(s, g);
        let r = crate::unstake::remove_exhausted(s, g);
        if x.new_available == 0 {
            lemma_map_remove_keys(r, x.buy_key);
        }
        assert forall|key: u128| #[trigger] contains_key(crate::unstake::remove_exhausted(s, f), key)
            <==> (contains_key(s, key) && !drains(f, key)) by {
            if drains(g, key) {
                let k = choose|k: int| 0 <= k < g.len() && g[k].buy_key == key && g[k].new_available == 0;
                assert(f[k] == g[k]);
            }
            if drains(f, key) && !drains(g, key) {
                let k = choose|k: int| 0 <= k < f.len() && f[k].buy_key == key && f[k].new_available == 0;
                if k < g.len() {
                    assert(g[k] == f[k]);
                }
            }
            if x.new_available == 0 && key == x.buy_key {
                assert(f[f.len() - 1] == x);
            }
        }
    }
}

/// A sale takes off the buy list exactly the positions it drains: after the
/// sale, a key is on the buy list when it was before and none of the sale's
/// fills left the position under it without liquidity.
pub proof fn lemma_sale_drops_drained_positions(
    s: Liquify,
    after: Liquify,
    keys: Seq<u128>,
    lsu_amount: i128,
    rate: i128,
    resource: crate::types::ResourceBytes,
    out: UnstakeOutcome,
)
    requires
        s.wf(),
        after.is_sale_of(s, s.planned_fills(keys, 0, lsu_amount as int, rate as int, s.order_fill_counter as int,
            s.is_small_order(lsu_amount as int, rate as int)), lsu_amount, resource, Ok(out)),
    ensures
        forall|key: u128| #[trigger] contains_key(after.buy_list@, key)
            <==> (contains_key(s.buy_list@, key) && !drains(out.fills@, key)),
{
    lemma_remove_exhausted_keys(s.buy_list@, out.fills@);
}

/// Whether a fill under `key` is among the collected fills `c`.
pub open spec fn collected_key(c: Seq<CollectedFill>, key: u128) -> bool {
    exists|i: int| 0 <= i < c.len() && c[i].fill_key == key
}

/// Collecting from `ids[k..]` out of `tree`, which holds the entries of
/// `tree0` whose fills are not among `collected`, ends (unless it fails)
/// with a tree holding the entries of `tree0` whose fills were not collected.
proof fn lemma_collect_tree_from(
    s: Liquify,
    tree0: Seq<(u128, UnstakeNFTOrLSU)>,
    tree: Seq<(u128, UnstakeNFTOrLSU)>,
    collected: Seq<CollectedFill>,
    updates: Seq<(u64, u64)>,
    counter: int,
    ids: Seq<u64>,
    k: nat,
    limit: int,
)
    requires
        strictly_sorted(tree),
        forall|e: (u128, UnstakeNFTOrLSU)| #[trigger] tree.contains(e) <==> (tree0.contains(e) && !collected_key(collected, e.0)),
    ensures
        ({
            let (t, c, u, failed) = s.collect_from(tree, collected, updates, counter, ids, k, limit);
            !failed ==> forall|e: (u128, UnstakeNFTOrLSU)| #[trigger] t.contains(e)
                <==> (tree0.contains(e) && !collected_key(c, e.0))
        }),
    decreases ids.len() - k,
{
    reveal_with_fuel(Liquify::collect_from, 1);
    if k < ids.len() {
        let id = ids[k as int];
        let fills = s.liquidity_data@[id].fills_to_collect as int;
        if fills == 0 {
            lemma_collect_tree_from(s, tree0, tree, collected, updates, counter, ids, k + 1, limit);
        } else if counter < limit {
            lemma_fill_segment(tree, id);
            let start = fills_start(tree, id);
            let end = fills_end(tree, id);
            let t = if end - start < limit - counter { end - start } else { limit - counter };
            if t <= fills {
                let piece = tree.subrange(start, start + t);
                let tagged = tag_fills(id, piece);
                let c2 = collected + tagged;
                let rest = tree.subrange(0, start) + tree.subrange(start + t, tree.len() as int);
                assert forall|i: int, j: int| 0 <= i < j < rest.len() implies rest[i].0 < rest[j].0 by {
                    let oi = if i < start { i } else { i + t };
                    let oj = if j < start { j } else { j + t };
                    assert(rest[i] == tree[oi] && rest[j] == tree[oj]);
                }
                assert forall|e: (u128, UnstakeNFTOrLSU)| #[trigger] rest.contains(e)
                    <==> (tree0.contains(e) && !collected_key(c2, e.0)) by {
                    if rest.contains(e) {
                        let i = choose|i: int| 0 <= i < rest.len() && rest[i] == e;
                        let oi = if i < start { i } else { i + t };
                        assert(rest[i] == tree[oi]);
                        assert(tree.contains(e));
                        assert(!collected_key(c2, e.0)) by {
                            if collected_key(c2, e.0) {
                                let q = choose|q: int| 0 <= q < c2.len() && c2[q].fill_key == e.0;
                                if q < collected.len() {
                                    assert(c2[q] == collected[q]);
                                } else {
                                    let pi = q - collected.len();
                                    assert(c2[q] == tagged[pi]);
                                    assert(tree[start + pi].0 == e.0);
                                    if start + pi < oi {
                                        assert(tree[start + pi].0 < tree[oi].0);
                                    } else if start + pi > oi {
                                        assert(tree[oi].0 < tree[start + pi].0);
                                    }
                                }
                            }
                        }
                    }
                    if tree0.contains(e) && !collected_key(c2, e.0) {
                        assert(!collected_key(collected, e.0)) by {
                            if collected_key(collected, e.0) {
                                let q = choose|q: int| 0 <= q < collected.len() && collected[q].fill_key == e.0;
                                assert(c2[q] == collected[q]);
                            }
                        }
                        assert(tree.contains(e));
                        let i = choose|i: int| 0 <= i < tree.len() && tree[i] == e;
                        if start <= i < start + t {
                            let pi = i - start;
                            assert(c2[collected.len() + pi] == tagged[pi]);
                            assert(c2[collected.len() + pi].fill_key == e.0);
                        } else if i < start {
                            assert(rest[i] == e);
                        } else {
                            assert(rest[i - t] == e);
                        }
                    }
                }
                let u2 = updates.push((id, (fills - t) as u64));
                lemma_collect_tree_from(s, tree0, rest, c2, u2, counter + t, ids, k + 1, limit);
                assert(s.collect_from(tree, collected, updates, counter, ids, k, limit)
                    == s.collect_from(rest, c2, u2, counter + t, ids, k + 1, limit));
            }
        } else {
            assert(s.collect_from(tree, collected, updates, counter, ids, k, limit) == (tree, collected, updates, false));
        }
    } else {
        assert(s.collect_from(tree, collected, updates, counter, ids, k, limit) == (tree, collected, updates, false));
    }
}

/// Collecting takes the collected fills out of the fill tree and no others:
/// after `collect_fills(ids, limit)` succeeds, the tree holds exactly the
/// entries it held before whose fills were not handed out.
pub proof fn lemma_collect_takes_out_collected(s: Liquify, ids: Seq<u64>, limit: u64)
    requires
        s.wf(),
    ensures
        ({
            let (t, c, u, failed) = s.collect_from(s.order_fill_tree@, Seq::empty(), Seq::empty(), 0, ids, 0, limit as int);
            !failed ==> forall|e: (u128, UnstakeNFTOrLSU)| #[trigger] t.contains(e)
                <==> (s.order_fill_tree@.contains(e) && !collected_key(c, e.0))
        }),
{
    lemma_collect_tree_from(s, s.order_fill_tree@, s.order_fill_tree@, Seq::empty(), Seq::empty(), 0, ids, 0, limit as int);
}

/// Taking the entry of receipt `id` out of a buy list whose entries hold
/// distinct receipts removes exactly the entries of `id`.
proof fn lemma_without_receipt_entries(s: Seq<(u128, u64)>, id: u64)
    requires
        crate::liquify::distinct_receipts(s),
    ensures
        crate::liquify::distinct_receipts(crate::liquify::without_receipt(s, id)),
        forall|e: (u128, u64)| #[trigger] crate::liquify::without_receipt(s, id).contains(e) <==> (s.contains(e) && e.1 != id),
{
    let r = crate::liquify::without_receipt(s, id);
    if exists|p: int| 0 <= p < s.len() && s[p].1 == id {
        let p = choose|p: int| 0 <= p < s.len() && s[p].1 == id;
        assert(r == s.remove(p));
        assert forall|i: int, j: int| 0 <= i < j < r.len() implies #[trigger] r[i].1 != #[trigger] r[j].1 by {
            let oi = if i < p { i } else { i + 1 };
            let oj = if j < p { j } else { j + 1 };
            assert(r[i] == s[oi] && r[j] == s[oj]);
        }
        assert forall|e: (u128, u64)| #[trigger] r.contains(e) <==> (s.contains(e) && e.1 != id) by {
            if r.contains(e) {
                let i = choose|i: int| 0 <= i < r.len() && r[i] == e;
                let oi = if i < p { i } else { i + 1 };
                assert(r[i] == s[oi]);
                if oi < p {
                    assert(s[oi].1 != s[p].1);
                } else {
                    assert(s[p].1 != s[oi].1);
                }
            }
            if s.contains(e) && e.1 != id {
                let i = choose|i: int| 0 <= i < s.len() && s[i] == e;
                assert(i != p);
                if i < p {
                    assert(r[i] == e);
                } else {
                    assert(r[i - 1] == e);
                }
            }
        }
    } else {
        assert forall|e: (u128, u64)| #[trigger] r.contains(e) <==> (s.contains(e) && e.1 != id) by {
            if s.contains(e) {
                let i = choose|i: int| 0 <= i < s.len() && s[i] == e;
                assert(s[i].1 != id);
            }
        }
    }
}

/// Taking the entries of the receipts `ids` out of a buy list whose entries
/// hold distinct receipts removes exactly their entries.
proof fn lemma_without_receipts_entries(s: Seq<(u128, u64)>, ids: Seq<u64>)
    requires
        crate::liquify::distinct_receipts(s),
    ensures
        crate::liquify::distinct_receipts(crate::positions::without_receipts(s, ids)),
        forall|e: (u128, u64)| #[trigger] crate::positions::without_receipts(s, ids).contains(e)
            <==> (s.contains(e) && !ids.contains(e.1)),
    decreases ids.len(),
{
    if ids.len() > 0 {
        let g = ids.drop_last();
        lemma_without_receipts_entries(s, g);
        lemma_without_receipt_entries(crate::positions::without_receipts(s, g), ids.last());
        assert forall|e: (u128, u64)| #[trigger] crate::positions::without_receipts(s, ids).contains(e)
            <==> (s.contains(e) && !ids.contains(e.1)) by {
            if ids.contains(e.1) {
                let i = choose|i: int| 0 <= i < ids.len() && ids[i] == e.1;
                if i < g.len() {
                    assert(g[i] == e.1);
                }
            }
            if g.contains(e.1) {
                let i = choose|i: int| 0 <= i < g.len() && g[i] == e.1;
                assert(ids[i] == e.1);
            }
            if e.1 == ids.last() {
                assert(ids[ids.len() - 1] == e.1);
            }
        }
    }
}

/// Withdrawn positions leave the buy list and no other does: after
/// `remove_liquidity(receipt_ids)`, the buy list holds exactly the entries it
/// held before whose receipt was not withdrawn.
pub proof fn lemma_remove_leaves_buy_list(s: Liquify, after: Liquify, receipt_ids: Seq<u64>, amounts: Seq<i128>)
    requires
        s.wf(),
        after.removed_positions(s, receipt_ids, amounts),
    ensures
        forall|e: (u128, u64)| #[trigger] after.buy_list@.contains(e) <==> (s.buy_list@.contains(e) && !receipt_ids.contains(e.1)),
{
    lemma_without_receipts_entries(s.buy_list@, receipt_ids);
}

/// The number of entries below a key is at most the number of entries.
proof fn lemma_count_below_in_range<V>(s: Seq<(u128, V)>, k: u128)
    ensures
        0 <= count_below(s, k) <= s.len(),
    decreases s.len(),
{
    if s.len() > 0 {
        lemma_count_below_in_range(s.drop_last(), k);
    }
}

/// Moving receipt `id` to the back of its queue puts it on the buy list
/// under its new key, drops its old entry, and keeps every other entry.
proof fn lemma_rekeyed_entries(s: Liquify, id: u64, epoch: u32, seq: u64)
    requires
        s.wf(),
    ensures
        ({
            let r = s.rekeyed_buy_list(id, epoch, seq);
            let key = buy_key(s.receipts@[id].discount as int, epoch, seq) as u128;
            &&& r.contains((key, id))
            &&& forall|e: (u128, u64)| e.1 != id ==> (#[trigger] r.contains(e) <==> s.buy_list@.contains(e))
            &&& forall|e: (u128, u64)| #[trigger] r.contains(e) && e.1 == id ==> e == (key, id)
        }),
{
    let b = crate::liquify::without_receipt(s.buy_list@, id);
    let key = buy_key(s.receipts@[id].discount as int, epoch, seq) as u128;
    lemma_without_receipt_entries(s.buy_list@, id);
    lemma_count_below_in_range(b, key);
    let p = count_below(b, key);
    let r = b.insert(p, (key, id));
    assert(r[p] == (key, id));
    assert forall|e: (u128, u64)| #[trigger] r.contains(e) <==> (b.contains(e) || e == (key, id)) by {
        if r.contains(e) {
            let i = choose|i: int| 0 <= i < r.len() && r[i] == e;
            if i < p {
                assert(b[i] == e);
            } else if i > p {
                assert(b[i - 1] == e);
            }
        }
        if b.contains(e) {
            let i = choose|i: int| 0 <= i < b.len() && b[i] == e;
            if i < p {
                assert(r[i] == e);
            } else {
                assert(r[i + 1] == e);
            }
        }
    }
}

/// Increasing a position moves it to the back of the queue of its discount:
/// afterwards it is on the buy list under the key of its discount, the
/// current epoch and the next sequence number, its old entry is gone, and
/// every other position keeps its entry.
pub proof fn lemma_increase_requeues(s: Liquify, after: Liquify, id: u64, amount: i128, current_epoch: u64)
    requires
        s.wf(),
        after.is_refill_of(s, id, amount, current_epoch),
    ensures
        ({
            let key = buy_key(s.receipts@[id].discount as int, #[verifier::truncate] (current_epoch as u32),
                s.liquidity_receipt_counter) as u128;
            &&& after.buy_list@.contains((key, id))
            &&& forall|e: (u128, u64)| e.1 != id ==> (#[trigger] after.buy_list@.contains(e) <==> s.buy_list@.contains(e))
            &&& forall|e: (u128, u64)| #[trigger] after.buy_list@.contains(e) && e.1 == id ==> e == (key, id)
        }),
{
    lemma_rekeyed_entries(s, id, #[verifier::truncate] (current_epoch as u32), s.liquidity_receipt_counter);
}

/// A cycle that refills a position moves it to the back of the queue of its
/// discount in the same way.
pub proof fn lemma_cycle_requeues(
    s: Liquify,
    after: Liquify,
    receipt_id: u64,
    claimed_keys: Seq<u128>,
    claimed_xrd: i128,
    current_epoch: u64,
    r: Result<i128, LiquifyError>,
)
    requires
        s.wf(),
        after.cycled_position(s, receipt_id, claimed_keys, claimed_xrd, current_epoch, r),
        r is Ok,
    ensures
        ({
            let key = buy_key(s.receipts@[receipt_id].discount as int, #[verifier::truncate] (current_epoch as u32),
                s.liquidity_receipt_counter) as u128;
            &&& after.buy_list@.contains((key, receipt_id))
            &&& forall|e: (u128, u64)| e.1 != receipt_id ==> (#[trigger] after.buy_list@.contains(e) <==> s.buy_list@.contains(e))
            &&& forall|e: (u128, u64)| #[trigger] after.buy_list@.contains(e) && e.1 == receipt_id ==> e == (key, receipt_id)
        }),
{
    lemma_rekeyed_entries(s, receipt_id, #[verifier::truncate] (current_epoch as u32), s.liquidity_receipt_counter);
    assert(s.automation_fee <= claimed_xrd);
}

/// A sale conserves LSUs and XRD: the LSUs the positions took plus those
/// handed back are the LSUs sold; what the positions paid goes to the seller
/// and the platform fee, leaves the XRD vault and the locked total, and the
/// fee reaches the fee vault.
pub proof fn lemma_sale_conserves(
    s: Liquify,
    after: Liquify,
    keys: Seq<u128>,
    lsu_amount: i128,
    rate: i128,
    resource: crate::types::ResourceBytes,
    out: UnstakeOutcome,
)
    requires
        after.is_sale_of(s, s.planned_fills(keys, 0, lsu_amount as int, rate as int, s.order_fill_counter as int,
            s.is_small_order(lsu_amount as int, rate as int)), lsu_amount, resource, Ok(out)),
    ensures
        out.lsu_remaining + crate::unstake::fills_lsu(out.fills@) == lsu_amount,
        out.xrd_to_user + out.platform_fee_amount == fills_xrd(out.fills@),
        s.xrd_liquidity - after.xrd_liquidity == fills_xrd(out.fills@),
        s.total_xrd_locked - after.total_xrd_locked == fills_xrd(out.fills@),
        after.fee_vault - s.fee_vault == out.platform_fee_amount,
        after.total_xrd_volume - s.total_xrd_volume == fills_xrd(out.fills@),
{
}

} // verus!
