//! Selling LSUs to the positions of the buy list.
use vstd::prelude::*;
use crate::combined_key::{spec_pack, CombinedKey};
use crate::decimal::{decimal_mul, spec_mul, ONE};
use crate::discount::{discount_index, discount_level, supported_discount, DISCOUNT_LEVELS};
use crate::liquify::{available_at_level, available_of, Liquify};
use crate::sums::{lemma_sum_update, sum_below};
use crate::matching::{compute_fill, fill_step, AMOUNT_CAP, RATE_CAP};
use crate::ordered_map::{contains_key, count_below, has_key_at};
use crate::types::{UnstakeNFTData, LSUData, LiquidityData, LiquifyError, ResourceBytes, UnstakeNFTOrLSU};

verus! {

broadcast use vstd::std_specs::hash::group_hash_axioms;

/// Largest number of order keys one sale can name; it bounds the XRD a sale
/// pays (at most `AMOUNT_CAP` per fill) within the `i128` atto range. A
/// transaction's cost limits keep real key lists far shorter.
pub const MAX_ORDER_KEYS: usize = 1_000_000;

/// One fill of a sale.
#[derive(Debug, Clone, Copy, PartialEq)]
pub struct OrderFill {
    /// The receipt of the position that buys.
    pub receipt_id: u64,
    /// The position's key in the buy list.
    pub buy_key: u128,
    /// The key under which the fill is held for the position.
    pub fill_key: u128,
    /// LSUs the position takes.
    pub lsu_amount: i128,
    /// XRD the position pays.
    pub xrd_amount: i128,
    /// XRD the position has left.
    pub new_available: i128,
    /// Fills the position has to collect afterwards.
    pub new_fills: u64,
    /// The position's discount.
    pub discount: i128,
    /// Whether the LSUs are unstaked for the position.
    pub auto_unstake: bool,
}

/// What a sale gives back.
#[derive(Debug, Clone, PartialEq)]
pub struct UnstakeOutcome {
    /// The fills, in the order they were made.
    pub fills: Vec<OrderFill>,
    /// XRD paid to the seller, after the platform fee.
    pub xrd_to_user: i128,
    /// XRD kept as platform fee.
    pub platform_fee_amount: i128,
    /// LSUs returned to the seller.
    pub lsu_remaining: i128,
}

/// The value stored under `key` in a buy list.
pub open spec fn buy_value(s: Seq<(u128, u64)>, key: u128) -> u64 {
    s[choose|i: int| has_key_at(s, i, key)].1
}

/// An ordered map after `value` is stored under `key`.
pub open spec fn map_insert<V>(s: Seq<(u128, V)>, key: u128, value: V) -> Seq<(u128, V)> {
    if contains_key(s, key) {
        s.update(count_below(s, key), (key, value))
    } else {
        s.insert(count_below(s, key), (key, value))
    }
}

/// An ordered map after the entry under `key` is removed, if any.
pub open spec fn map_remove<V>(s: Seq<(u128, V)>, key: u128) -> Seq<(u128, V)> {
    if contains_key(s, key) {
        s.remove(count_below(s, key))
    } else {
        s
    }
}

/// Total XRD paid by a sequence of fills.
pub open spec fn fills_xrd(f: Seq<OrderFill>) -> int
    decreases f.len(),
{
    if f.len() == 0 { 0 } else { fills_xrd(f.drop_last()) + f.last().xrd_amount }
}

/// Total LSUs taken by a sequence of fills.
pub open spec fn fills_lsu(f: Seq<OrderFill>) -> int
    decreases f.len(),
{
    if f.len() == 0 { 0 } else { fills_lsu(f.drop_last()) + f.last().lsu_amount }
}

/// XRD paid by the fills of positions at discount level `lvl`.
pub open spec fn fills_xrd_at_level(f: Seq<OrderFill>, lvl: int) -> int
    decreases f.len(),
{
    if f.len() == 0 {
        0
    } else {
        fills_xrd_at_level(f.drop_last(), lvl) + if discount_level(f.last().discount as int) == lvl {
            f.last().xrd_amount as int
        } else {
            0
        }
    }
}

/// Position data after the fills are written, one after the other.
pub open spec fn apply_fills_data(data: Map<u64, LiquidityData>, f: Seq<OrderFill>) -> Map<u64, LiquidityData>
    decreases f.len(),
{
    if f.len() == 0 {
        data
    } else {
        let d = apply_fills_data(data, f.drop_last());
        let x = f.last();
        d.insert(x.receipt_id, LiquidityData {
            xrd_liquidity_filled: (d[x.receipt_id].xrd_liquidity_filled + x.xrd_amount) as i128,
            xrd_liquidity_available: x.new_available,
            fills_to_collect: x.new_fills,
            last_added_epoch: d[x.receipt_id].last_added_epoch,
        })
    }
}

/// The buy list after the positions that a fill exhausted leave it.
pub open spec fn remove_exhausted(s: Seq<(u128, u64)>, f: Seq<OrderFill>) -> Seq<(u128, u64)>
    decreases f.len(),
{
    if f.len() == 0 {
        s
    } else {
        let r = remove_exhausted(s, f.drop_last());
        if f.last().new_available == 0 { map_remove(r, f.last().buy_key) } else { r }
    }
}

/// The fill tree after the fills held as LSUs are stored.
pub open spec fn insert_lsu_fills(
    s: Seq<(u128, UnstakeNFTOrLSU)>,
    f: Seq<OrderFill>,
    resource: ResourceBytes,
) -> Seq<(u128, UnstakeNFTOrLSU)>
    decreases f.len(),
{
    if f.len() == 0 {
        s
    } else {
        let r = insert_lsu_fills(s, f.drop_last(), resource);
        let x = f.last();
        if x.auto_unstake {
            r
        } else {
            map_insert(r, x.fill_key, UnstakeNFTOrLSU::LSU(LSUData { resource_address: resource, amount: x.lsu_amount }))
        }
    }
}

/// The XRD of the first `j` fills is at most that of all of them.
pub proof fn lemma_fills_xrd_prefix(f: Seq<OrderFill>, j: int)
    requires
        0 <= j <= f.len(),
        forall|k: int| 0 <= k < f.len() ==> #[trigger] f[k].xrd_amount >= 0,
    ensures
        0 <= fills_xrd(f.take(j)) <= fills_xrd(f),
        forall|lvl: int| 0 <= #[trigger] fills_xrd_at_level(f.take(j), lvl) <= fills_xrd(f.take(j)),
    decreases f.len(),
{
    if j == f.len() {
        assert(f.take(j) =~= f);
        lemma_fills_level_le(f);
    } else {
        let g = f.drop_last();
        assert(g.take(j) =~= f.take(j));
        lemma_fills_xrd_prefix(g, j);
    }
}

/// Per-level XRD of fills is between zero and their total.
pub proof fn lemma_fills_level_le(f: Seq<OrderFill>)
    requires
        forall|k: int| 0 <= k < f.len() ==> #[trigger] f[k].xrd_amount >= 0,
    ensures
        0 <= fills_xrd(f),
        forall|lvl: int| 0 <= #[trigger] fills_xrd_at_level(f, lvl) <= fills_xrd(f),
    decreases f.len(),
{
    if f.len() > 0 {
        let g = f.drop_last();
        assert forall|k: int| 0 <= k < g.len() implies #[trigger] g[k].xrd_amount >= 0 by {
            assert(g[k] == f[k]);
        }
        lemma_fills_level_le(g);
        assert(f[f.len() - 1].xrd_amount >= 0);
        assert forall|lvl: int| 0 <= #[trigger] fills_xrd_at_level(f, lvl) <= fills_xrd(f) by {
            assert(0 <= fills_xrd_at_level(g, lvl) <= fills_xrd(g));
        }
    }
}

/// Keys of the fills, among `f`, of positions with auto unstake, in order.
pub open spec fn unstake_keys(f: Seq<OrderFill>) -> Seq<u128>
    decreases f.len(),
{
    if f.len() == 0 {
        Seq::empty()
    } else {
        let r = unstake_keys(f.drop_last());
        if f.last().auto_unstake { r.push(f.last().fill_key) } else { r }
    }
}

/// Whether one of `nfts` is stored under `key`.
pub open spec fn recorded(nfts: Seq<(u128, UnstakeNFTData)>, key: u128) -> bool {
    exists|i: int| 0 <= i < nfts.len() && nfts[i].0 == key
}

/// The keys of `p` under which none of `nfts` is stored, in order.
pub open spec fn unrecorded(p: Seq<u128>, nfts: Seq<(u128, UnstakeNFTData)>) -> Seq<u128>
    decreases p.len(),
{
    if p.len() == 0 {
        Seq::empty()
    } else {
        let r = unrecorded(p.drop_last(), nfts);
        if recorded(nfts, p.last()) { r } else { r.push(p.last()) }
    }
}

/// The keys of the first `m` entries of a buy list.
pub open spec fn first_keys(s: Seq<(u128, u64)>, m: int) -> Seq<u128> {
    Seq::new(m as nat, |i: int| s[i].0)
}

/// The fill tree after the unstake NFTs of a sale are stored.
pub open spec fn insert_nft_fills(
    s: Seq<(u128, UnstakeNFTOrLSU)>,
    nfts: Seq<(u128, UnstakeNFTData)>,
) -> Seq<(u128, UnstakeNFTOrLSU)>
    decreases nfts.len(),
{
    if nfts.len() == 0 {
        s
    } else {
        let x = nfts.last();
        map_insert(insert_nft_fills(s, nfts.drop_last()), x.0, UnstakeNFTOrLSU::UnstakeNFT(x.1))
    }
}

/// Whether `keys[i]` occurs among the keys before it.
pub open spec fn named_before(keys: Seq<u128>, i: int) -> bool {
    exists|p: int| 0 <= p < i && keys[p] == keys[i]
}

/// Whether `keys[i]` occurs among the keys before it.
fn key_named_before(keys: &Vec<u128>, i: usize) -> (r: bool)
    requires
        i < keys@.len(),
    ensures
        r == named_before(keys@, i as int),
{
    let key = keys[i];
    let mut p: usize = 0;
    while p < i
        invariant
            p <= i < keys@.len(),
            key == keys@[i as int],
            forall|q: int| 0 <= q < p ==> keys@[q] != key,
        decreases i - p,
    {
        if keys[p] == key {
            return true;
        }
        p = p + 1;
    }
    false
}

impl Liquify {
    /// Whether a sale of `lsu_amount` LSUs at `rate` XRD per LSU is a small
    /// order: worth less than the small order threshold.
    pub open spec fn is_small_order(&self, lsu_amount: int, rate: int) -> bool {
        spec_mul(lsu_amount, rate) < self.small_order_threshold
    }

    /// Whether a sale, small or not, passes over `key`: no position is under
    /// it, or the order is small and the position unstakes its fills.
    pub open spec fn passes_over(&self, key: u128, small: bool) -> bool {
        ||| !contains_key(self.buy_list@, key)
        ||| small && self.receipts@[buy_value(self.buy_list@, key)].auto_unstake
    }

    /// The fills of a sale of `remaining` LSUs at `rate` XRD per LSU against
    /// the positions under `keys[i..]`, counting fills from `counter`. Keys
    /// that the sale passes over (see `passes_over`) are skipped, and so is a
    /// key named earlier in the list: its position was either passed over or
    /// drained by its first fill, since a fill that leaves the position
    /// liquidity takes all the LSUs that remain. The sale stops when no LSUs
    /// remain.
    pub open spec fn planned_fills(&self, keys: Seq<u128>, i: nat, remaining: int, rate: int, counter: int, small: bool) -> Seq<OrderFill>
        decreases keys.len() - i,
    {
        if i >= keys.len() {
            Seq::empty()
        } else if self.passes_over(keys[i as int], small) || named_before(keys, i as int) {
            self.planned_fills(keys, i + 1, remaining, rate, counter, small)
        } else {
            let id = buy_value(self.buy_list@, keys[i as int]);
            let receipt = self.receipts@[id];
            let data = self.liquidity_data@[id];
            let step = fill_step(remaining, rate, receipt.discount as int, data.xrd_liquidity_available as int);
            let f = OrderFill {
                receipt_id: id,
                buy_key: keys[i as int],
                fill_key: spec_pack(id, counter as u32, 0) as u128,
                lsu_amount: step.0 as i128,
                xrd_amount: step.1 as i128,
                new_available: step.2 as i128,
                new_fills: (data.fills_to_collect + 1) as u64,
                discount: receipt.discount,
                auto_unstake: receipt.auto_unstake,
            };
            let rest = remaining - step.0;
            seq![f] + if rest == 0 {
                Seq::<OrderFill>::empty()
            } else {
                self.planned_fills(keys, i + 1, rest, rate, counter + 1, small)
            }
        }
    }

    /// Why a sale is refused, if it is: the XRD vault does not hold what the
    /// fills pay, or XRD is paid and the platform fee on it is negative or
    /// above it (no fee is taken from a sale that pays nothing).
    pub open spec fn unstake_error(&self, fills: Seq<OrderFill>) -> Option<LiquifyError> {
        if fills_xrd(fills) > self.xrd_liquidity {
            Some(LiquifyError::InsufficientLiquidity)
        } else if fills_xrd(fills) > 0 && (self.platform_fee < 0
            || spec_mul(fills_xrd(fills), self.platform_fee as int) > fills_xrd(fills)) {
            Some(LiquifyError::PlatformFeeOutOfRange)
        } else {
            None
        }
    }

    /// `self` is `old` after the sale that `fills` make of `lsu_amount` LSUs of
    /// `resource`, which returned `r`.
    pub open spec fn is_sale_of(
        &self,
        old: Self,
        fills: Seq<OrderFill>,
        lsu_amount: i128,
        resource: ResourceBytes,
        r: Result<UnstakeOutcome, LiquifyError>,
    ) -> bool {
        match old.unstake_error(fills) {
            Some(e) => r == Err::<UnstakeOutcome, LiquifyError>(e) && *self == old,
            None => r matches Ok(out) && {
                let xrd = fills_xrd(fills);
                let fee = spec_mul(xrd, old.platform_fee as int);
                &&& out.fills@ == fills
                &&& forall|k: int| 0 <= k < fills.len() ==> 0 <= #[trigger] fills[k].xrd_amount
                &&& forall|k: int| 0 <= k < fills.len() ==> #[trigger] fills[k].new_available
                    == old.liquidity_data@[fills[k].receipt_id].xrd_liquidity_available - fills[k].xrd_amount
                &&& forall|k1: int, k2: int| 0 <= k1 < k2 < fills.len() ==>
                    #[trigger] fills[k1].receipt_id != #[trigger] fills[k2].receipt_id
                &&& out.platform_fee_amount == fee
                &&& out.xrd_to_user == xrd - fee
                &&& out.lsu_remaining == lsu_amount - fills_lsu(fills)
                &&& 0 <= out.lsu_remaining <= lsu_amount
                &&& self.buy_list@ == remove_exhausted(old.buy_list@, fills)
                &&& self.liquidity_data@ == apply_fills_data(old.liquidity_data@, fills)
                &&& self.liquidity_index@.len() == DISCOUNT_LEVELS
                &&& forall|lvl: int| 0 <= lvl < DISCOUNT_LEVELS ==> #[trigger] self.liquidity_index@[lvl]
                    == old.liquidity_index@[lvl] - fills_xrd_at_level(fills, lvl)
                &&& self.order_fill_tree@ == insert_lsu_fills(old.order_fill_tree@, fills, resource)
                &&& self.order_fill_counter == old.order_fill_counter + fills.len()
                &&& self.pending_unstake_fills@ == old.pending_unstake_fills@ + unstake_keys(fills)
                &&& self.total_xrd_volume == old.total_xrd_volume + xrd
                &&& self.total_xrd_locked == old.total_xrd_locked - xrd
                &&& self.xrd_liquidity == old.xrd_liquidity - xrd
                &&& self.fee_vault == old.fee_vault + fee
                &&& self.receipts@ == old.receipts@
                &&& self.liquidity_receipt_counter == old.liquidity_receipt_counter
                &&& self.automated_liquidity@ == old.automated_liquidity@
                &&& self.same_settings(old)
            },
        }
    }

    /// The bounds under which a sale stays within the atto and counter ranges.
    pub open spec fn sale_in_range(&self, n_keys: int, lsu_amount: i128, redemption_rate: i128) -> bool {
        &&& 0 <= lsu_amount <= AMOUNT_CAP
        &&& 0 <= redemption_rate <= RATE_CAP
        &&& n_keys <= MAX_ORDER_KEYS
        &&& self.platform_fee <= RATE_CAP
        &&& self.order_fill_counter + n_keys <= u64::MAX
        &&& self.total_xrd_volume <= i128::MAX - AMOUNT_CAP
        &&& self.fee_vault <= i128::MAX - AMOUNT_CAP
        &&& forall|id: u64| #[trigger] self.liquidity_data@.contains_key(id) ==> {
            &&& self.liquidity_data@[id].xrd_liquidity_filled <= i128::MAX - AMOUNT_CAP
            &&& self.liquidity_data@[id].xrd_liquidity_filled >= i128::MIN + AMOUNT_CAP
            &&& self.liquidity_data@[id].fills_to_collect < u64::MAX
        }
    }

    /// The discount of the position of receipt `id`, and whether it unstakes
    /// its fills.
    fn receipt_terms(&self, id: u64) -> (r: (i128, bool))
        requires
            self.receipts@.contains_key(id),
        ensures
            r.0 == self.receipts@[id].discount,
            r.1 == self.receipts@[id].auto_unstake,
    {
        let receipt = self.receipts.get(&id).unwrap();
        (receipt.discount, receipt.auto_unstake)
    }

    /// Sells `lsu_amount` LSUs of `lsu_resource`, worth `redemption_rate` XRD
    /// each, to the positions under `order_keys`, in that order (see
    /// `planned_fills`); the positions' records are written after all fills
    /// are made.
    fn process_unstake(
        &mut self,
        lsu_amount: i128,
        lsu_resource: ResourceBytes,
        order_keys: &Vec<u128>,
        redemption_rate: i128,
    ) -> (r: Result<UnstakeOutcome, LiquifyError>)
        requires
            old(self).wf(),
            old(self).sale_in_range(order_keys@.len() as int, lsu_amount, redemption_rate),
        ensures
            final(self).is_sale_of(
                *old(self),
                old(self).planned_fills(order_keys@, 0, lsu_amount as int, redemption_rate as int, old(self).order_fill_counter as int,
                    old(self).is_small_order(lsu_amount as int, redemption_rate as int)),
                lsu_amount,
                lsu_resource,
                r,
            ),
            final(self).wf(),
    {
        proof {
            crate::decimal::lemma_spec_mul_bound(lsu_amount as int, redemption_rate as int);
        }
        let small = decimal_mul(lsu_amount, redemption_rate) < self.small_order_threshold;
        let ghost full = self.planned_fills(order_keys@, 0, lsu_amount as int, redemption_rate as int, self.order_fill_counter as int, small);
        let n = order_keys.len();
        let mut fills: Vec<OrderFill> = Vec::new();
        let mut remaining = lsu_amount;
        let mut counter = self.order_fill_counter;
        let mut xrd_total: i128 = 0;
        let mut lsu_total: i128 = 0;
        let mut i: usize = 0;
        let mut stop = false;
        while i < n && !stop
            invariant
                n == order_keys@.len(),
                self.wf(),
                self.sale_in_range(n as int, lsu_amount, redemption_rate),
                small == self.is_small_order(lsu_amount as int, redemption_rate as int),
                full == self.planned_fills(order_keys@, 0, lsu_amount as int, redemption_rate as int, self.order_fill_counter as int, small),
                i <= n,
                fills@.len() <= i,
                counter == self.order_fill_counter + fills@.len(),
                full == fills@ + if stop {
                    Seq::<OrderFill>::empty()
                } else {
                    self.planned_fills(order_keys@, i as nat, remaining as int, redemption_rate as int, counter as int, small)
                },
                xrd_total == fills_xrd(fills@),
                lsu_total == fills_lsu(fills@),
                remaining == lsu_amount - lsu_total,
                0 <= remaining <= lsu_amount,
                0 <= xrd_total <= fills@.len() * AMOUNT_CAP,
                forall|k: int| 0 <= k < fills@.len() ==> {
                    &&& 0 <= #[trigger] fills@[k].xrd_amount <= AMOUNT_CAP
                    &&& 0 <= fills@[k].lsu_amount
                    &&& 0 <= fills@[k].new_available
                    &&& self.receipts@.contains_key(fills@[k].receipt_id)
                    &&& fills@[k].discount == self.receipts@[fills@[k].receipt_id].discount
                    &&& supported_discount(fills@[k].discount as int)
                    &&& fills@[k].new_available == self.liquidity_data@[fills@[k].receipt_id].xrd_liquidity_available - fills@[k].xrd_amount
                    &&& contains_key(self.buy_list@, fills@[k].buy_key)
                    &&& fills@[k].receipt_id == buy_value(self.buy_list@, fills@[k].buy_key)
                    &&& exists|p: int| 0 <= p < i && order_keys@[p] == fills@[k].buy_key
                },
                forall|k1: int, k2: int| 0 <= k1 < k2 < fills@.len()
                    ==> #[trigger] fills@[k1].buy_key != #[trigger] fills@[k2].buy_key,
            decreases n - i,
        {
            let key = order_keys[i];
            let ghost before = fills@;
            proof {
                reveal_with_fuel(Liquify::planned_fills, 1);
            }
            // A key named earlier finds its position passed over or drained.
            let found = if key_named_before(order_keys, i) { None } else { self.buy_list.get(key) };
            match found {
                None => {
                    i = i + 1;
                },
                Some(id) => {
                    proof {
                        let q = choose|q: int| has_key_at(self.buy_list@, q, key);
                        assert(self.receipts@.contains_key(self.buy_list@[q].1));
                        assert(id == self.buy_list@[q].1);
                    }
                    let (discount, auto_unstake) = self.receipt_terms(id);
                    if small && auto_unstake {
                        proof {
                            assert(self.passes_over(key, small));
                        }
                        i = i + 1;
                    } else {
                        proof {
                            crate::sums::lemma_sum_bounds(crate::liquify::available_of(self.liquidity_data@),
                                self.liquidity_receipt_counter as nat, id);
                        }
                        let data = *self.liquidity_data.get(&id).unwrap();
                        proof {
                            assert(discount <= ONE);
                        }
                        let (lsu_take, fill_amount, new_available) = compute_fill(remaining, redemption_rate, discount, data.xrd_liquidity_available);
                        let fill_key = CombinedKey::new(id, #[verifier::truncate] (counter as u32), 0).key;
                        let fill = OrderFill {
                            receipt_id: id,
                            buy_key: key,
                            fill_key,
                            lsu_amount: lsu_take,
                            xrd_amount: fill_amount,
                            new_available,
                            new_fills: data.fills_to_collect + 1,
                            discount,
                            auto_unstake,
                        };
                        let ghost prev = fills@;
                        let ghost rest_before = self.planned_fills(order_keys@, i as nat, remaining as int, redemption_rate as int, counter as int, small);
                        fills.push(fill);
                        proof {
                            assert(fills@.drop_last() =~= prev);
                            assert(fill.xrd_amount <= AMOUNT_CAP);
                            assert(contains_key(self.buy_list@, key));
                            assert forall|k: int| 0 <= k < fills@.len() implies exists|p: int| 0 <= p < i + 1 && order_keys@[p] == #[trigger] fills@[k].buy_key by {
                                if k < prev.len() {
                                    assert(fills@[k] == prev[k]);
                                    assert(0 <= prev[k].xrd_amount);
                                    let p = choose|p: int| 0 <= p < i && order_keys@[p] == prev[k].buy_key;
                                    assert(0 <= p < i + 1 && order_keys@[p] == fills@[k].buy_key);
                                } else {
                                    assert(order_keys@[i as int] == fills@[k].buy_key);
                                }
                            }
                            assert forall|k1: int, k2: int| 0 <= k1 < k2 < fills@.len() implies #[trigger] fills@[k1].buy_key != #[trigger] fills@[k2].buy_key by {
                                if k2 == prev.len() {
                                    assert(fills@[k1] == prev[k1]);
                                    assert(0 <= prev[k1].xrd_amount);
                                    let p = choose|p: int| 0 <= p < i && order_keys@[p] == prev[k1].buy_key;
                                    assert(order_keys@[p] != order_keys@[i as int]);
                                } else {
                                    assert(fills@[k1] == prev[k1] && fills@[k2] == prev[k2]);
                                }
                            }
                            assert((prev.len() + 1) * AMOUNT_CAP == prev.len() * AMOUNT_CAP + AMOUNT_CAP) by (nonlinear_arith);
                        }
                        xrd_total = xrd_total + fill_amount;
                        lsu_total = lsu_total + lsu_take;
                        remaining = remaining - lsu_take;
                        counter = counter + 1;
                        i = i + 1;
                        if remaining == 0 {
                            stop = true;
                        }
                        proof {
                            assert(rest_before[0] == fill);
                            if stop {
                                assert(rest_before =~= seq![fill]);
                                assert(fills@ =~= prev + rest_before);
                            } else {
                                let rest_after = self.planned_fills(order_keys@, i as nat, remaining as int, redemption_rate as int, counter as int, small);
                                assert(rest_before =~= seq![fill] + rest_after);
                                assert(prev + rest_before =~= fills@ + rest_after);
                            }
                        }
                    }
                },
            }
        }
        proof {
            if !stop {
                assert(fills@ =~= full);
            } else {
                assert(fills@ + Seq::<OrderFill>::empty() =~= fills@);
            }
            assert(fills@ == full);
            vstd::arithmetic::mul::lemma_mul_inequality(fills@.len() as int, MAX_ORDER_KEYS as int, AMOUNT_CAP as int);
        }
        if xrd_total > self.xrd_liquidity {
            return Err(LiquifyError::InsufficientLiquidity);
        }
        let fee = if xrd_total == 0 {
            proof {
                assert((xrd_total as int) * (self.platform_fee as int) == 0) by (nonlinear_arith)
                    requires xrd_total == 0;
            }
            0
        } else {
            if self.platform_fee < 0 {
                return Err(LiquifyError::PlatformFeeOutOfRange);
            }
            proof {
                crate::decimal::lemma_spec_mul_bound(xrd_total as int, self.platform_fee as int);
            }
            let fee = decimal_mul(xrd_total, self.platform_fee);
            if fee > xrd_total {
                return Err(LiquifyError::PlatformFeeOutOfRange);
            }
            fee
        };
        proof {
            assert(spec_mul(xrd_total as int, self.platform_fee as int) == fee);
            assert(0 <= fee <= xrd_total);
        }
        let ghost old_self = *self;
        let ghost nn = self.liquidity_receipt_counter as nat;
        proof {
            assert forall|k1: int, k2: int| 0 <= k1 < k2 < fills@.len() implies
                #[trigger] fills@[k1].receipt_id != #[trigger] fills@[k2].receipt_id by {
                assert(0 <= fills@[k1].xrd_amount);
                assert(0 <= fills@[k2].xrd_amount);
                let b = self.buy_list@;
                let q1 = choose|q: int| has_key_at(b, q, fills@[k1].buy_key);
                let q2 = choose|q: int| has_key_at(b, q, fills@[k2].buy_key);
                assert(q1 != q2);
                assert(crate::liquify::distinct_receipts(b));
                if q1 < q2 { assert(b[q1].1 != b[q2].1); } else { assert(b[q2].1 != b[q1].1); }
            }
        }
        let n_fills = fills.len();
        let mut j: usize = 0;
        while j < n_fills
            invariant
                n_fills == fills@.len(),
                fills@ == full,
                j <= n_fills,
                0 <= xrd_total <= AMOUNT_CAP,
                xrd_total == fills_xrd(fills@),
                forall|k: int| 0 <= k < fills@.len() ==> {
                    &&& 0 <= #[trigger] fills@[k].xrd_amount <= AMOUNT_CAP
                    &&& 0 <= fills@[k].lsu_amount
                    &&& old_self.receipts@.contains_key(fills@[k].receipt_id)
                    &&& supported_discount(fills@[k].discount as int)
                },
                old_self.wf(),
                old_self.sale_in_range(n as int, lsu_amount, redemption_rate),
                crate::ordered_map::strictly_sorted(self.buy_list@),
                crate::ordered_map::strictly_sorted(self.order_fill_tree@),
                self.buy_list@ == remove_exhausted(old_self.buy_list@, fills@.take(j as int)),
                self.liquidity_data@ == apply_fills_data(old_self.liquidity_data@, fills@.take(j as int)),
                self.liquidity_data@.dom() == old_self.liquidity_data@.dom(),
                forall|id: u64| #[trigger] self.liquidity_data@.contains_key(id) ==> {
                    &&& old_self.liquidity_data@[id].xrd_liquidity_filled <= self.liquidity_data@[id].xrd_liquidity_filled
                    &&& self.liquidity_data@[id].xrd_liquidity_filled <= old_self.liquidity_data@[id].xrd_liquidity_filled + fills_xrd(fills@.take(j as int))
                },
                self.liquidity_index@.len() == DISCOUNT_LEVELS,
                forall|lvl: int| 0 <= lvl < DISCOUNT_LEVELS ==> #[trigger] self.liquidity_index@[lvl]
                    == old_self.liquidity_index@[lvl] - fills_xrd_at_level(fills@.take(j as int), lvl),
                self.order_fill_tree@ == insert_lsu_fills(old_self.order_fill_tree@, fills@.take(j as int), lsu_resource),
                self.receipts@ == old_self.receipts@,
                self.liquidity_receipt_counter == old_self.liquidity_receipt_counter,
                self.automated_liquidity@ == old_self.automated_liquidity@,
                self.order_fill_counter == old_self.order_fill_counter,
                self.pending_unstake_fills@ == old_self.pending_unstake_fills@ + unstake_keys(fills@.take(j as int)),
                self.total_xrd_volume == old_self.total_xrd_volume,
                self.total_xrd_locked == old_self.total_xrd_locked,
                self.xrd_liquidity == old_self.xrd_liquidity,
                self.fee_vault == old_self.fee_vault,
                self.same_settings(old_self),
                forall|k: int| 0 <= k < fills@.len() ==> {
                    &&& #[trigger] fills@[k].new_available == old_self.liquidity_data@[fills@[k].receipt_id].xrd_liquidity_available - fills@[k].xrd_amount
                    &&& 0 <= fills@[k].new_available
                    &&& fills@[k].discount == old_self.receipts@[fills@[k].receipt_id].discount
                },
                nn == old_self.liquidity_receipt_counter,
                forall|k1: int, k2: int| 0 <= k1 < k2 < fills@.len() ==>
                    #[trigger] fills@[k1].receipt_id != #[trigger] fills@[k2].receipt_id,
                forall|k: int| j <= k < fills@.len() ==>
                    self.liquidity_data@[#[trigger] fills@[k].receipt_id] == old_self.liquidity_data@[fills@[k].receipt_id],
                sum_below(available_of(self.liquidity_data@), nn) == old_self.total_xrd_locked - fills_xrd(fills@.take(j as int)),
                forall|lvl: int| 0 <= lvl < DISCOUNT_LEVELS ==> #[trigger] sum_below(
                    available_at_level(self.liquidity_data@, old_self.receipts@, lvl), nn)
                    == old_self.liquidity_index@[lvl] - fills_xrd_at_level(fills@.take(j as int), lvl),
                forall|i: int| 0 <= i < self.buy_list@.len() ==> old_self.receipts@.contains_key(#[trigger] self.buy_list@[i].1)
                    && (self.buy_list@[i].0 as int) % crate::combined_key::pow64() < nn
                    && (self.buy_list@[i].0 as int) / crate::combined_key::pow96() == crate::discount::discount_bp(old_self.receipts@[self.buy_list@[i].1].discount as int),
                crate::liquify::distinct_receipts(self.buy_list@),
                forall|id: u64| #[trigger] self.liquidity_data@.contains_key(id) ==> 0 <= self.liquidity_data@[id].xrd_liquidity_available,
            decreases n_fills - j,
        {
            let f = fills[j];
            let ghost pre = fills@.take(j as int);
            let ghost post = fills@.take(j + 1);
            proof {
                assert(post.drop_last() =~= pre);
                assert(post.last() == f);
                lemma_fills_xrd_prefix(fills@, j as int);
                lemma_fills_xrd_prefix(fills@, j + 1);
                assert(fills_xrd(post) == fills_xrd(pre) + f.xrd_amount);
            }
            let ghost b0 = self.buy_list@;
            let ghost d0 = self.liquidity_data@;
            if f.new_available == 0 {
                self.buy_list.remove(f.buy_key);
            }
            proof {
                let b1 = self.buy_list@;
                assert forall|i: int| 0 <= i < b1.len() implies old_self.receipts@.contains_key(#[trigger] b1[i].1)
                    && (b1[i].0 as int) % crate::combined_key::pow64() < nn
                    && (b1[i].0 as int) / crate::combined_key::pow96() == crate::discount::discount_bp(old_self.receipts@[b1[i].1].discount as int) by {
                    if f.new_available == 0 && contains_key(b0, f.buy_key) {
                        let p = count_below(b0, f.buy_key);
                        let oi = if i < p { i } else { i + 1 };
                        assert(b1[i] == b0[oi]);
                        assert(old_self.receipts@.contains_key(b0[oi].1));
                    } else {
                        assert(old_self.receipts@.contains_key(b0[i].1));
                    }
                }
                assert forall|i1: int, i2: int| 0 <= i1 < i2 < b1.len() implies #[trigger] b1[i1].1 != #[trigger] b1[i2].1 by {
                    if f.new_available == 0 && contains_key(b0, f.buy_key) {
                        let p = count_below(b0, f.buy_key);
                        let o1 = if i1 < p { i1 } else { i1 + 1 };
                        let o2 = if i2 < p { i2 } else { i2 + 1 };
                        assert(b1[i1] == b0[o1] && b1[i2] == b0[o2]);
                    } else {
                        assert(b0[i1].1 != b0[i2].1);
                    }
                }
            }
            let d = *self.liquidity_data.get(&f.receipt_id).unwrap();
            self.liquidity_data.insert(f.receipt_id, LiquidityData {
                xrd_liquidity_filled: d.xrd_liquidity_filled + f.xrd_amount,
                xrd_liquidity_available: f.new_available,
                fills_to_collect: f.new_fills,
                last_added_epoch: d.last_added_epoch,
            });
            let index = discount_index(f.discount);
            let current = self.liquidity_index[index];
            proof {
                assert(old_self.liquidity_index@[index as int] >= 0) by {
                    crate::sums::lemma_sum_bounds(
                        crate::liquify::available_at_level(old_self.liquidity_data@, old_self.receipts@, index as int),
                        old_self.liquidity_receipt_counter as nat, 0);
                }
            }
            self.liquidity_index.set(index, current - f.xrd_amount);
            if !f.auto_unstake {
                self.order_fill_tree.insert(f.fill_key, UnstakeNFTOrLSU::LSU(LSUData { resource_address: lsu_resource, amount: f.lsu_amount }));
            } else {
                self.pending_unstake_fills.push(f.fill_key);
            }
            proof {
                let bb = self.buy_list@;
                assert forall|i: int| 0 <= i < bb.len() implies old_self.receipts@.contains_key(#[trigger] bb[i].1)
                    && (bb[i].0 as int) % crate::combined_key::pow64() < nn
                    && (bb[i].0 as int) / crate::combined_key::pow96() == crate::discount::discount_bp(old_self.receipts@[bb[i].1].discount as int) by {
                    assert(old_self.receipts@.contains_key(bb[i].1));
                }
                let d1 = self.liquidity_data@;
                let r = f.receipt_id;
                let rc = old_self.receipts@;
                assert(d1.dom() =~= old_self.liquidity_data@.dom());
                assert(0 <= fills@[j as int].new_available);
                assert(d0[r] == old_self.liquidity_data@[r]);
                assert(r < nn);
                lemma_sum_update(available_of(d0), available_of(d1), nn, r);
                assert forall|lvl: int| 0 <= lvl < DISCOUNT_LEVELS implies #[trigger] sum_below(
                    available_at_level(d1, rc, lvl), nn) == old_self.liquidity_index@[lvl] - fills_xrd_at_level(post, lvl) by {
                    lemma_sum_update(available_at_level(d0, rc, lvl), available_at_level(d1, rc, lvl), nn, r);
                }
                assert forall|k: int| j + 1 <= k < fills@.len() implies
                    d1[#[trigger] fills@[k].receipt_id] == old_self.liquidity_data@[fills@[k].receipt_id] by {
                    assert(fills@[j as int].receipt_id != fills@[k].receipt_id);
                }
            }
            j = j + 1;
        }
        proof {
            assert(fills@.take(n_fills as int) =~= fills@);
            let b = self.buy_list@;
            assert forall|i: int| 0 <= i < b.len() implies (#[trigger] b[i].0 as int) / crate::combined_key::pow96() == crate::discount::discount_bp(old_self.receipts@[b[i].1].discount as int) by {
                assert(old_self.receipts@.contains_key(b[i].1));
            }
        }
        self.order_fill_counter = counter;
        self.total_xrd_volume = self.total_xrd_volume + xrd_total;
        self.total_xrd_locked = self.total_xrd_locked - xrd_total;
        self.xrd_liquidity = self.xrd_liquidity - xrd_total;
        self.fee_vault = self.fee_vault + fee;
        Ok(UnstakeOutcome {
            fills,
            xrd_to_user: xrd_total - fee,
            platform_fee_amount: fee,
            lsu_remaining: remaining,
        })
    }

    /// Sells `lsu_amount` LSUs to the first `max_iterations` positions of the
    /// buy list, best discount first (see `liquify_unstake_off_ledger`).
    pub fn liquify_unstake(
        &mut self,
        lsu_amount: i128,
        lsu_resource: ResourceBytes,
        max_iterations: u8,
        redemption_rate: i128,
    ) -> (r: Result<UnstakeOutcome, LiquifyError>)
        requires
            old(self).wf(),
            old(self).sale_in_range(max_iterations as int, lsu_amount, redemption_rate),
        ensures
            final(self).wf(),
            ({
                let m = if (max_iterations as int) < old(self).buy_list@.len() {
                    max_iterations as int
                } else {
                    old(self).buy_list@.len() as int
                };
                let keys = first_keys(old(self).buy_list@, m);
                final(self).is_sale_of(
                    *old(self),
                    old(self).planned_fills(keys, 0, lsu_amount as int, redemption_rate as int, old(self).order_fill_counter as int,
                        old(self).is_small_order(lsu_amount as int, redemption_rate as int)),
                    lsu_amount,
                    lsu_resource,
                    r,
                )
            }),
    {
        let mut order_keys: Vec<u128> = Vec::new();
        let len = self.buy_list.len();
        let mut i: usize = 0;
        while i < len && i < max_iterations as usize
            invariant
                len == self.buy_list@.len(),
                i <= len,
                i <= max_iterations,
                order_keys@ == first_keys(self.buy_list@, i as int),
            decreases len - i,
        {
            order_keys.push(self.buy_list.entry_at(i).0);
            i = i + 1;
            proof {
                assert(order_keys@ =~= first_keys(self.buy_list@, i as int));
            }
        }
        proof {
            assert forall|a: int, b: int| 0 <= a < order_keys@.len() && 0 <= b < order_keys@.len() && a != b
                implies order_keys@[a] != order_keys@[b] by {
                if a < b {
                    assert(self.buy_list@[a].0 < self.buy_list@[b].0);
                } else {
                    assert(self.buy_list@[b].0 < self.buy_list@[a].0);
                }
            }
        }
        self.process_unstake(lsu_amount, lsu_resource, &order_keys, redemption_rate)
    }

    /// Sells `lsu_amount` LSUs of `lsu_resource`, worth `redemption_rate` XRD
    /// each, to the positions under `order_keys`, in that order (keys are
    /// computed off ledger). Keys that are not in the buy list, and keys named
    /// earlier in the list, are skipped (see `planned_fills`); the sale stops
    /// when no LSUs remain. The platform fee is taken from the XRD paid, if
    /// any is.
    pub fn liquify_unstake_off_ledger(
        &mut self,
        lsu_amount: i128,
        lsu_resource: ResourceBytes,
        order_keys: &Vec<u128>,
        redemption_rate: i128,
    ) -> (r: Result<UnstakeOutcome, LiquifyError>)
        requires
            old(self).wf(),
            old(self).sale_in_range(order_keys@.len() as int, lsu_amount, redemption_rate),
        ensures
            final(self).is_sale_of(
                *old(self),
                old(self).planned_fills(order_keys@, 0, lsu_amount as int, redemption_rate as int, old(self).order_fill_counter as int,
                    old(self).is_small_order(lsu_amount as int, redemption_rate as int)),
                lsu_amount,
                lsu_resource,
                r,
            ),
            final(self).wf(),
    {
        self.process_unstake(lsu_amount, lsu_resource, order_keys, redemption_rate)
    }

    /// Whether one of `nfts` is stored under `key`.
    fn is_recorded(nfts: &Vec<(u128, UnstakeNFTData)>, key: u128) -> (r: bool)
        ensures
            r == recorded(nfts@, key),
    {
        let mut i: usize = 0;
        while i < nfts.len()
            invariant
                i <= nfts@.len(),
                forall|k: int| 0 <= k < i ==> nfts@[k].0 != key,
            decreases nfts@.len() - i,
        {
            if nfts[i].0 == key {
                return true;
            }
            i = i + 1;
        }
        false
    }

    /// Stores the unstake NFTs that a sale's fills became, each under the key
    /// of its fill: a key of a fill whose NFT is pending and not yet in the
    /// fill tree. Those keys are no longer pending.
    pub fn record_unstake_fills(&mut self, nfts: &Vec<(u128, UnstakeNFTData)>)
        requires
            old(self).wf(),
            forall|k: int| 0 <= k < nfts@.len() ==> old(self).pending_unstake_fills@.contains(#[trigger] nfts@[k].0)
                && !contains_key(old(self).order_fill_tree@, nfts@[k].0),
            forall|k1: int, k2: int| 0 <= k1 < k2 < nfts@.len() ==> #[trigger] nfts@[k1].0 != #[trigger] nfts@[k2].0,
        ensures
            final(self).wf(),
            final(self).order_fill_tree@ == insert_nft_fills(old(self).order_fill_tree@, nfts@),
            final(self).pending_unstake_fills@ == unrecorded(old(self).pending_unstake_fills@, nfts@),
            final(self).buy_list@ == old(self).buy_list@,
            final(self).receipts@ == old(self).receipts@,
            final(self).liquidity_data@ == old(self).liquidity_data@,
            final(self).liquidity_index@ == old(self).liquidity_index@,
            final(self).automated_liquidity@ == old(self).automated_liquidity@,
            final(self).liquidity_receipt_counter == old(self).liquidity_receipt_counter,
            final(self).order_fill_counter == old(self).order_fill_counter,
            final(self).total_xrd_volume == old(self).total_xrd_volume,
            final(self).total_xrd_locked == old(self).total_xrd_locked,
            final(self).xrd_liquidity == old(self).xrd_liquidity,
            final(self).fee_vault == old(self).fee_vault,
            final(self).same_settings(*old(self)),
    {
        let n = nfts.len();
        let mut j: usize = 0;
        while j < n
            invariant
                n == nfts@.len(),
                j <= n,
                self.wf(),
                self.order_fill_tree@ == insert_nft_fills(old(self).order_fill_tree@, nfts@.take(j as int)),
                self.pending_unstake_fills@ == old(self).pending_unstake_fills@,
                self.buy_list@ == old(self).buy_list@,
                self.receipts@ == old(self).receipts@,
                self.liquidity_data@ == old(self).liquidity_data@,
                self.liquidity_index@ == old(self).liquidity_index@,
                self.automated_liquidity@ == old(self).automated_liquidity@,
                self.liquidity_receipt_counter == old(self).liquidity_receipt_counter,
                self.order_fill_counter == old(self).order_fill_counter,
                self.total_xrd_volume == old(self).total_xrd_volume,
                self.total_xrd_locked == old(self).total_xrd_locked,
                self.xrd_liquidity == old(self).xrd_liquidity,
                self.fee_vault == old(self).fee_vault,
                self.same_settings(*old(self)),
            decreases n - j,
        {
            let (key, nft) = nfts[j];
            proof {
                assert(nfts@.take(j + 1).drop_last() =~= nfts@.take(j as int));
            }
            self.order_fill_tree.insert(key, UnstakeNFTOrLSU::UnstakeNFT(nft));
            j = j + 1;
        }
        proof {
            assert(nfts@.take(n as int) =~= nfts@);
        }
        let mut still: Vec<u128> = Vec::new();
        let m = self.pending_unstake_fills.len();
        let mut i: usize = 0;
        while i < m
            invariant
                m == self.pending_unstake_fills@.len(),
                self.pending_unstake_fills@ == old(self).pending_unstake_fills@,
                i <= m,
                still@ == unrecorded(self.pending_unstake_fills@.take(i as int), nfts@),
            decreases m - i,
        {
            let key = self.pending_unstake_fills[i];
            proof {
                assert(self.pending_unstake_fills@.take(i + 1).drop_last() =~= self.pending_unstake_fills@.take(i as int));
            }
            if !Self::is_recorded(nfts, key) {
                still.push(key);
            }
            i = i + 1;
        }
        proof {
            assert(self.pending_unstake_fills@.take(m as int) =~= self.pending_unstake_fills@);
        }
        self.pending_unstake_fills = still;
    }
}

} // verus!
