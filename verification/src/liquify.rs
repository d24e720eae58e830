//! The state of the pool and the operations on it.
use vstd::prelude::*;
use std::collections::HashMap;
use crate::combined_key::{lemma_key_parts, pow64, pow96, spec_pack, CombinedKey};
use crate::decimal::ONE;
use crate::discount::{
    discount_basis_points, discount_bp, discount_index, discount_level, supported_discount,
    DISCOUNT_LEVELS, DISCOUNT_STEP,
};
use crate::matching::AMOUNT_CAP;
use crate::ordered_map::{count_below, strictly_sorted, OrderedMap};
use crate::sums::{lemma_sum_agree, lemma_sum_bounds, lemma_sum_mono, lemma_sum_update, sum_below};
use crate::types::{LiquidityData, LiquidityReceipt, LiquifyError, UnstakeNFTOrLSU};

verus! {

broadcast use vstd::std_specs::hash::group_hash_axioms;

/// The state of a Liquify pool.
///
/// Receipt identifiers start at 1. The buy list orders positions by
/// discount, then by the epoch their liquidity was last added, then by a
/// sequence number; the fill tree holds the fills of each position under
/// keys that start with the receipt identifier.
pub struct Liquify {
    pub liquidity_receipt_counter: u64,
    pub buy_list: OrderedMap<u64>,
    pub order_fill_tree: OrderedMap<UnstakeNFTOrLSU>,
    pub receipts: HashMap<u64, LiquidityReceipt>,
    pub liquidity_data: HashMap<u64, LiquidityData>,
    pub total_xrd_volume: i128,
    pub total_xrd_locked: i128,
    pub component_status: bool,
    pub order_fill_counter: u64,
    pub liquidity_index: Vec<i128>,
    pub discounts: Vec<i128>,
    pub platform_fee: i128,
    /// Balance of the vault of XRD liquidity.
    pub xrd_liquidity: i128,
    /// Balance of the vault of platform fees.
    pub fee_vault: i128,
    pub minimum_liquidity: i128,
    pub minimum_refill_threshold: i128,
    pub receipt_image_url: String,
    pub automation_fee: i128,
    /// Orders worth less than this many attos of XRD leave the positions with
    /// auto unstake alone.
    pub small_order_threshold: i128,
    /// Keys of the fills of positions with auto unstake whose unstake NFTs
    /// are yet to be stored in the fill tree, oldest first.
    pub pending_unstake_fills: Vec<u128>,
    /// The positions with auto refill, in the order of the automation index
    /// (the entry at position `i` is the one under index `i + 1`).
    pub automated_liquidity: Vec<u64>,
}

/// Available liquidity of each receipt (zero for an unknown one).
pub open spec fn available_of(data: Map<u64, LiquidityData>) -> spec_fn(u64) -> int {
    |id: u64| if data.contains_key(id) { data[id].xrd_liquidity_available as int } else { 0 }
}

/// Available liquidity of each receipt at discount level `lvl` (zero for others).
pub open spec fn available_at_level(
    data: Map<u64, LiquidityData>,
    receipts: Map<u64, LiquidityReceipt>,
    lvl: int,
) -> spec_fn(u64) -> int {
    |id: u64|
        if data.contains_key(id) && receipts.contains_key(id) && discount_level(
            receipts[id].discount as int,
        ) == lvl {
            data[id].xrd_liquidity_available as int
        } else {
            0
        }
}

/// The buy list key of a position.
pub open spec fn buy_key(discount: int, epoch: u32, seq: u64) -> int {
    spec_pack(discount_bp(discount) as u64, epoch, seq)
}

/// The buy list without the entry of receipt `id` (entries hold distinct
/// receipts, so there is at most one).
pub open spec fn without_receipt(s: Seq<(u128, u64)>, id: u64) -> Seq<(u128, u64)> {
    if exists|p: int| 0 <= p < s.len() && s[p].1 == id {
        s.remove(choose|p: int| 0 <= p < s.len() && s[p].1 == id)
    } else {
        s
    }
}

/// Entries of a buy list hold distinct receipts.
pub open spec fn distinct_receipts(s: Seq<(u128, u64)>) -> bool {
    forall|i: int, j: int| 0 <= i < j < s.len() ==> #[trigger] s[i].1 != #[trigger] s[j].1
}

impl Liquify {
    /// The invariant of the pool.
    pub open spec fn wf(&self) -> bool {
        let receipts = self.receipts@;
        let data = self.liquidity_data@;
        let buy = self.buy_list@;
        let n = self.liquidity_receipt_counter as nat;
        &&& self.discounts@.len() == DISCOUNT_LEVELS
        &&& forall|i: int| 0 <= i < DISCOUNT_LEVELS ==> #[trigger] self.discounts@[i] == i * DISCOUNT_STEP
        &&& self.liquidity_index@.len() == DISCOUNT_LEVELS
        &&& strictly_sorted(buy)
        &&& strictly_sorted(self.order_fill_tree@)
        &&& 1 <= self.liquidity_receipt_counter
        &&& 1 <= self.order_fill_counter
        &&& receipts.dom() == data.dom()
        &&& forall|id: u64| #[trigger] receipts.contains_key(id) ==> 1 <= id < self.liquidity_receipt_counter
            && supported_discount(receipts[id].discount as int)
        &&& forall|id: u64| #[trigger] data.contains_key(id) ==> 0 <= data[id].xrd_liquidity_available
        &&& forall|i: int| 0 <= i < buy.len() ==> receipts.contains_key(#[trigger] buy[i].1)
            && (buy[i].0 as int) % pow64() < self.liquidity_receipt_counter
        &&& forall|i: int| 0 <= i < buy.len() ==> (#[trigger] buy[i].0 as int) / pow96() == discount_bp(receipts[buy[i].1].discount as int)
        &&& distinct_receipts(buy)
        &&& self.total_xrd_locked == self.xrd_liquidity
        &&& self.total_xrd_locked == sum_below(available_of(data), n)
        &&& forall|lvl: int| 0 <= lvl < DISCOUNT_LEVELS ==> #[trigger] self.liquidity_index@[lvl] == sum_below(
            available_at_level(data, receipts, lvl), n)
        &&& self.automated_liquidity@.no_duplicates()
        &&& forall|id: u64| #[trigger] self.automated_liquidity@.contains(id) <==> (receipts.contains_key(id)
            && receipts[id].auto_refill)
        &&& 0 <= self.fee_vault
        &&& 0 <= self.automation_fee
        &&& self.total_xrd_locked <= AMOUNT_CAP
    }

    /// The owner's settings are those of `other`.
    pub open spec fn same_settings(&self, other: Self) -> bool {
        &&& self.component_status == other.component_status
        &&& self.platform_fee == other.platform_fee
        &&& self.minimum_liquidity == other.minimum_liquidity
        &&& self.minimum_refill_threshold == other.minimum_refill_threshold
        &&& self.receipt_image_url == other.receipt_image_url
        &&& self.automation_fee == other.automation_fee
        &&& self.small_order_threshold == other.small_order_threshold
        &&& self.discounts@ == other.discounts@
    }

    /// Sets up a pool: disabled, empty, with the default parameters, and
    /// discounts from 0% to 5% in steps of 0.025%.
    pub fn instantiate_liquify() -> (r: Self)
        ensures
            r.wf(),
            r.liquidity_receipt_counter == 1,
            r.order_fill_counter == 1,
            r.buy_list@.len() == 0,
            r.order_fill_tree@.len() == 0,
            r.receipts@ == Map::<u64, LiquidityReceipt>::empty(),
            r.liquidity_data@ == Map::<u64, LiquidityData>::empty(),
            r.total_xrd_volume == 0,
            r.total_xrd_locked == 0,
            !r.component_status,
            forall|i: int| 0 <= i < DISCOUNT_LEVELS ==> #[trigger] r.liquidity_index@[i] == 0,
            r.platform_fee == 0,
            r.xrd_liquidity == 0,
            r.fee_vault == 0,
            r.minimum_liquidity == 10000 * ONE,
            r.minimum_refill_threshold == 10000 * ONE,
            r.receipt_image_url@ == "https://bafybeib7cokm27lwwkunaibn7hczijn3ztkypbzttmt7hymaov44s5e5sm.ipfs.w3s.link/liquify2.png"@,
            r.automation_fee == 5 * ONE,
            r.small_order_threshold == 1000 * ONE,
            r.pending_unstake_fills@.len() == 0,
            r.automated_liquidity@.len() == 0,
    {
        let mut liquidity_index: Vec<i128> = Vec::new();
        let mut discounts: Vec<i128> = Vec::new();
        let mut i: usize = 0;
        while i < DISCOUNT_LEVELS
            invariant
                i <= DISCOUNT_LEVELS,
                liquidity_index@.len() == i,
                discounts@.len() == i,
                forall|j: int| 0 <= j < i ==> #[trigger] discounts@[j] == j * DISCOUNT_STEP,
                forall|j: int| 0 <= j < i ==> #[trigger] liquidity_index@[j] == 0,
            decreases DISCOUNT_LEVELS - i,
        {
            liquidity_index.push(0);
            discounts.push(DISCOUNT_STEP * (i as i128));
            i = i + 1;
        }
        let r = Liquify {
            liquidity_receipt_counter: 1,
            buy_list: OrderedMap::new(),
            order_fill_tree: OrderedMap::new(),
            receipts: HashMap::new(),
            liquidity_data: HashMap::new(),
            total_xrd_volume: 0,
            total_xrd_locked: 0,
            component_status: false,
            order_fill_counter: 1,
            liquidity_index,
            discounts,
            platform_fee: 0,
            xrd_liquidity: 0,
            fee_vault: 0,
            minimum_liquidity: 10000 * ONE,
            minimum_refill_threshold: 10000 * ONE,
            receipt_image_url: "https://bafybeib7cokm27lwwkunaibn7hczijn3ztkypbzttmt7hymaov44s5e5sm.ipfs.w3s.link/liquify2.png".to_owned(),
            automation_fee: 5 * ONE,
            small_order_threshold: 1000 * ONE,
            pending_unstake_fills: Vec::new(),
            automated_liquidity: Vec::new(),
        };
        proof {
            reveal_with_fuel(sum_below, 2);
            assert forall|lvl: int| 0 <= lvl < DISCOUNT_LEVELS implies #[trigger] r.liquidity_index@[lvl]
                == sum_below(available_at_level(r.liquidity_data@, r.receipts@, lvl), 1) by {
                assert(!r.liquidity_data@.contains_key(0));
            }
            assert(!r.liquidity_data@.contains_key(0));
            assert(sum_below(available_of(r.liquidity_data@), 1) == 0);
        }
        r
    }

    /// Why `add_liquidity` refuses its arguments, if it does: the checks in
    /// the order they are made.
    pub open spec fn add_liquidity_error(
        &self,
        xrd_amount: i128,
        discount: i128,
        auto_unstake: bool,
        auto_refill: bool,
        refill_threshold: i128,
    ) -> Option<LiquifyError> {
        if !self.component_status {
            Some(LiquifyError::ComponentDisabled)
        } else if xrd_amount < self.minimum_liquidity {
            Some(LiquifyError::BelowMinimumLiquidity)
        } else if !supported_discount(discount as int) {
            Some(LiquifyError::UnsupportedDiscount)
        } else if auto_refill && !auto_unstake {
            Some(LiquifyError::AutoRefillRequiresAutoUnstake)
        } else if auto_refill && refill_threshold < self.minimum_refill_threshold {
            Some(LiquifyError::RefillThresholdBelowMinimum)
        } else {
            None
        }
    }

    /// Whether `discount` is one of the pool's discounts.
    pub fn is_supported_discount(&self, discount: i128) -> (r: bool)
        requires
            self.wf(),
        ensures
            r == supported_discount(discount as int),
    {
        let mut i: usize = 0;
        while i < self.discounts.len()
            invariant
                self.wf(),
                i <= self.discounts@.len(),
                forall|j: int| 0 <= j < i ==> self.discounts@[j] != discount,
            decreases self.discounts@.len() - i,
        {
            if self.discounts[i] == discount {
                return true;
            }
            i = i + 1;
        }
        proof {
            if supported_discount(discount as int) {
                let j = (discount as int) / (DISCOUNT_STEP as int);
                vstd::arithmetic::div_mod::lemma_fundamental_div_mod(discount as int, DISCOUNT_STEP as int);
                assert(self.discounts@[j] == j * DISCOUNT_STEP);
            }
        }
        false
    }

    /// Position in the buy list of the entry of receipt `id`, if it has one.
    pub fn find_buy_position(&self, id: u64) -> (r: Option<usize>)
        ensures
            match r {
                Some(p) => p < self.buy_list@.len() && self.buy_list@[p as int].1 == id,
                None => forall|i: int| 0 <= i < self.buy_list@.len() ==> self.buy_list@[i].1 != id,
            },
    {
        let mut i: usize = 0;
        while i < self.buy_list.len()
            invariant
                i <= self.buy_list@.len(),
                forall|j: int| 0 <= j < i ==> self.buy_list@[j].1 != id,
            decreases self.buy_list@.len() - i,
        {
            if self.buy_list.entry_at(i).1 == id {
                return Some(i);
            }
            i = i + 1;
        }
        None
    }

    /// `self` is `old` after `add_liquidity` recorded the position of receipt
    /// `id` with these arguments.
    pub open spec fn added_position(
        &self,
        old: Self,
        xrd_amount: i128,
        discount: i128,
        auto_unstake: bool,
        auto_refill: bool,
        refill_threshold: i128,
        current_epoch: u64,
        id: u64,
    ) -> bool {
        let epoch = #[verifier::truncate] (current_epoch as u32);
        let key = buy_key(discount as int, epoch, id) as u128;
        let lvl = discount_level(discount as int);
        &&& self.liquidity_receipt_counter == id + 1
        &&& self.receipts@.dom() == old.receipts@.dom().insert(id)
        &&& forall|j: u64| j != id && old.receipts@.contains_key(j) ==> #[trigger] self.receipts@[j] == old.receipts@[j]
        &&& self.receipts@[id].key_image_url@ == old.receipt_image_url@
        &&& self.receipts@[id].discount == discount
        &&& self.receipts@[id].auto_unstake == auto_unstake
        &&& self.receipts@[id].auto_refill == auto_refill
        &&& self.receipts@[id].refill_threshold == refill_threshold
        &&& self.liquidity_data@ == old.liquidity_data@.insert(id, LiquidityData {
            xrd_liquidity_filled: 0,
            xrd_liquidity_available: xrd_amount,
            fills_to_collect: 0,
            last_added_epoch: epoch,
        })
        &&& self.automated_liquidity@ == if auto_refill {
            old.automated_liquidity@.push(id)
        } else {
            old.automated_liquidity@
        }
        &&& self.buy_list@ == old.buy_list@.insert(count_below(old.buy_list@, key), (key, id))
        &&& self.liquidity_index@ == old.liquidity_index@.update(lvl, (old.liquidity_index@[lvl] + xrd_amount) as i128)
        &&& self.total_xrd_locked == old.total_xrd_locked + xrd_amount
        &&& self.xrd_liquidity == old.xrd_liquidity + xrd_amount
        &&& self.order_fill_tree@ == old.order_fill_tree@
        &&& self.order_fill_counter == old.order_fill_counter
        &&& self.pending_unstake_fills@ == old.pending_unstake_fills@
        &&& self.total_xrd_volume == old.total_xrd_volume
        &&& self.fee_vault == old.fee_vault
        &&& self.same_settings(old)
    }

    /// Records a new position of `xrd_amount` XRD at `discount` and returns
    /// the identifier of its receipt.
    pub fn add_liquidity(
        &mut self,
        xrd_amount: i128,
        discount: i128,
        auto_unstake: bool,
        auto_refill: bool,
        refill_threshold: i128,
        current_epoch: u64,
    ) -> (r: Result<u64, LiquifyError>)
        requires
            old(self).wf(),
            0 <= xrd_amount,
            old(self).total_xrd_locked + xrd_amount <= AMOUNT_CAP,
            old(self).liquidity_receipt_counter < u64::MAX,
        ensures
            final(self).wf(),
            match old(self).add_liquidity_error(xrd_amount, discount, auto_unstake, auto_refill, refill_threshold) {
                Some(e) => r == Err::<u64, LiquifyError>(e) && *final(self) == *old(self),
                None => r == Ok::<u64, LiquifyError>(old(self).liquidity_receipt_counter),
            },
            r matches Ok(id) ==> final(self).added_position(*old(self), xrd_amount, discount, auto_unstake, auto_refill, refill_threshold, current_epoch, id),
    {
        if !self.component_status {
            return Err(LiquifyError::ComponentDisabled);
        }
        if xrd_amount < self.minimum_liquidity {
            return Err(LiquifyError::BelowMinimumLiquidity);
        }
        if !self.is_supported_discount(discount) {
            return Err(LiquifyError::UnsupportedDiscount);
        }
        if auto_refill {
            if !auto_unstake {
                return Err(LiquifyError::AutoRefillRequiresAutoUnstake);
            }
            if refill_threshold < self.minimum_refill_threshold {
                return Err(LiquifyError::RefillThresholdBelowMinimum);
            }
        }
        let ghost old_self = *self;
        let n = self.liquidity_receipt_counter;
        let discount_u64 = discount_basis_points(discount);
        let epoch = #[verifier::truncate] (current_epoch as u32);
        let combined_key = CombinedKey::new(discount_u64, epoch, n);
        let receipt = LiquidityReceipt {
            key_image_url: self.receipt_image_url.clone(),
            discount,
            auto_unstake,
            auto_refill,
            refill_threshold,
        };
        let data = LiquidityData {
            xrd_liquidity_filled: 0,
            xrd_liquidity_available: xrd_amount,
            fills_to_collect: 0,
            last_added_epoch: epoch,
        };
        proof {
            assert(!old_self.receipts@.contains_key(n));
            assert(!old_self.automated_liquidity@.contains(n));
            lemma_key_parts(discount_u64, epoch, n);
            let lvl = discount_level(discount as int);
            let f = available_at_level(old_self.liquidity_data@, old_self.receipts@, lvl);
            let g = available_of(old_self.liquidity_data@);
            lemma_sum_mono(f, g, n as nat);
        }
        self.receipts.insert(n, receipt);
        self.liquidity_data.insert(n, data);
        if auto_refill {
            self.automated_liquidity.push(n);
        }
        self.liquidity_receipt_counter = n + 1;
        self.buy_list.insert(combined_key.key, n);
        let index = discount_index(discount);
        let current = self.liquidity_index[index];
        self.liquidity_index.set(index, current + xrd_amount);
        self.total_xrd_locked = self.total_xrd_locked + xrd_amount;
        self.xrd_liquidity = self.xrd_liquidity + xrd_amount;
        proof {
            let od = old_self.liquidity_data@;
            let orc = old_self.receipts@;
            let nd = self.liquidity_data@;
            let nrc = self.receipts@;
            let nn = (n + 1) as nat;
            assert(!old_self.buy_list@.contains((combined_key.key, n))) by {
                if old_self.buy_list@.contains((combined_key.key, n)) {
                    let i = choose|i: int| 0 <= i < old_self.buy_list@.len() && old_self.buy_list@[i] == (combined_key.key, n);
                    assert(orc.contains_key(old_self.buy_list@[i].1));
                }
            }
            assert(!crate::ordered_map::contains_key(old_self.buy_list@, combined_key.key)) by {
                if crate::ordered_map::contains_key(old_self.buy_list@, combined_key.key) {
                    let i = choose|i: int| crate::ordered_map::has_key_at(old_self.buy_list@, i, combined_key.key);
                    assert(orc.contains_key(old_self.buy_list@[i].1));
                    assert((old_self.buy_list@[i].0 as int) % pow64() < n);
                }
            }
            lemma_sum_agree(available_of(od), available_of(nd), n as nat);
            assert forall|lvl: int| 0 <= lvl < DISCOUNT_LEVELS implies #[trigger] self.liquidity_index@[lvl] == sum_below(
                available_at_level(nd, nrc, lvl), nn) by {
                lemma_sum_agree(available_at_level(od, orc, lvl), available_at_level(nd, nrc, lvl), n as nat);
            }
            let buy = self.buy_list@;
            let ob = old_self.buy_list@;
            let p = count_below(ob, combined_key.key);
            assert forall|i: int| 0 <= i < buy.len() implies nrc.contains_key(#[trigger] buy[i].1)
                && (buy[i].0 as int) % pow64() < self.liquidity_receipt_counter
                && (buy[i].0 as int) / pow96() == discount_bp(nrc[buy[i].1].discount as int) by {
                if i < p {
                    assert(buy[i] == ob[i]);
                    assert(orc.contains_key(ob[i].1));
                } else if i > p {
                    assert(buy[i] == ob[i - 1]);
                    assert(orc.contains_key(ob[i - 1].1));
                }
            }
            assert forall|i: int, j: int| 0 <= i < j < buy.len() implies #[trigger] buy[i].1 != #[trigger] buy[j].1 by {
                assert(distinct_receipts(ob));
                if i < p {
                    assert(orc.contains_key(ob[i].1));
                } else if i > p {
                    assert(orc.contains_key(ob[i - 1].1));
                }
                if j < p {
                    assert(orc.contains_key(ob[j].1));
                } else if j > p {
                    assert(orc.contains_key(ob[j - 1].1));
                }
            }
            assert forall|id: u64| #[trigger] self.automated_liquidity@.contains(id) <==> (nrc.contains_key(id)
                && nrc[id].auto_refill) by {
                let oa = old_self.automated_liquidity@;
                let na = self.automated_liquidity@;
                if id != n {
                    if auto_refill {
                        if oa.contains(id) {
                            let i = choose|i: int| 0 <= i < oa.len() && oa[i] == id;
                            assert(na[i] == id);
                        }
                        if na.contains(id) {
                            let i = choose|i: int| 0 <= i < na.len() && na[i] == id;
                            assert(oa[i] == id);
                        }
                    }
                } else if auto_refill {
                    assert(self.automated_liquidity@.last() == n);
                }
            }
        }
        Ok(n)
    }

    /// Removes the buy list entry of receipt `id`, if it has one.
    pub fn remove_from_buy_list(&mut self, id: u64)
        requires
            strictly_sorted(old(self).buy_list@),
            distinct_receipts(old(self).buy_list@),
        ensures
            final(self).buy_list@ == without_receipt(old(self).buy_list@, id),
            strictly_sorted(final(self).buy_list@),
            distinct_receipts(final(self).buy_list@),
            final(self).liquidity_receipt_counter == old(self).liquidity_receipt_counter,
            final(self).order_fill_tree == old(self).order_fill_tree,
            final(self).receipts == old(self).receipts,
            final(self).liquidity_data == old(self).liquidity_data,
            final(self).total_xrd_volume == old(self).total_xrd_volume,
            final(self).total_xrd_locked == old(self).total_xrd_locked,
            final(self).component_status == old(self).component_status,
            final(self).order_fill_counter == old(self).order_fill_counter,
            final(self).pending_unstake_fills@ == old(self).pending_unstake_fills@,
            final(self).liquidity_index == old(self).liquidity_index,
            final(self).discounts == old(self).discounts,
            final(self).platform_fee == old(self).platform_fee,
            final(self).xrd_liquidity == old(self).xrd_liquidity,
            final(self).fee_vault == old(self).fee_vault,
            final(self).minimum_liquidity == old(self).minimum_liquidity,
            final(self).minimum_refill_threshold == old(self).minimum_refill_threshold,
            final(self).receipt_image_url == old(self).receipt_image_url,
            final(self).automation_fee == old(self).automation_fee,
            final(self).small_order_threshold == old(self).small_order_threshold,
            final(self).automated_liquidity == old(self).automated_liquidity,
    {
        let ghost ob = self.buy_list@;
        match self.find_buy_position(id) {
            Some(p) => {
                proof {
                    let q = choose|q: int| 0 <= q < ob.len() && ob[q].1 == id;
                    if q != p as int {
                        if q < p { assert(ob[q].1 != ob[p as int].1); } else { assert(ob[p as int].1 != ob[q].1); }
                    }
                }
                self.buy_list.remove_at(p);
                proof {
                    let nb = self.buy_list@;
                    assert forall|i: int, j: int| 0 <= i < j < nb.len() implies #[trigger] nb[i].1 != #[trigger] nb[j].1 by {
                        let oi = if i < p { i } else { i + 1 };
                        let oj = if j < p { j } else { j + 1 };
                        assert(nb[i] == ob[oi]);
                        assert(nb[j] == ob[oj]);
                    }
                }
            },
            None => {},
        }
    }

    /// Everything but the positions, the buy list and the liquidity totals is
    /// as in `other`.
    pub open spec fn same_apart_from_liquidity(&self, other: Self) -> bool {
        &&& self.order_fill_tree@ == other.order_fill_tree@
        &&& self.order_fill_counter == other.order_fill_counter
        &&& self.pending_unstake_fills@ == other.pending_unstake_fills@
        &&& self.total_xrd_volume == other.total_xrd_volume
        &&& self.fee_vault == other.fee_vault
        &&& self.same_settings(other)
    }

    /// The buy list after receipt `id` is moved to the back of its
    /// discount level under sequence number `seq`.
    pub open spec fn rekeyed_buy_list(&self, id: u64, epoch: u32, seq: u64) -> Seq<(u128, u64)> {
        let b = without_receipt(self.buy_list@, id);
        let key = buy_key(self.receipts@[id].discount as int, epoch, seq) as u128;
        b.insert(count_below(b, key), (key, id))
    }

    /// `self` is `old` after `amount` XRD was added to the position of
    /// receipt `id` and the position was moved to the back of the queue of its
    /// discount, under a new key with the current epoch and the next sequence
    /// number.
    pub open spec fn is_refill_of(&self, old: Self, id: u64, amount: i128, current_epoch: u64) -> bool {
        let epoch = #[verifier::truncate] (current_epoch as u32);
        let old_data = old.liquidity_data@[id];
        let lvl = discount_level(old.receipts@[id].discount as int);
        &&& self.liquidity_receipt_counter == old.liquidity_receipt_counter + 1
        &&& self.receipts@ == old.receipts@
        &&& self.liquidity_data@ == old.liquidity_data@.insert(id, LiquidityData {
            xrd_liquidity_filled: old_data.xrd_liquidity_filled,
            xrd_liquidity_available: (old_data.xrd_liquidity_available + amount) as i128,
            fills_to_collect: old_data.fills_to_collect,
            last_added_epoch: epoch,
        })
        &&& self.buy_list@ == old.rekeyed_buy_list(id, epoch, old.liquidity_receipt_counter)
        &&& self.liquidity_index@ == old.liquidity_index@.update(lvl, (old.liquidity_index@[lvl] + amount) as i128)
        &&& self.total_xrd_locked == old.total_xrd_locked + amount
        &&& self.xrd_liquidity == old.xrd_liquidity + amount
        &&& self.automated_liquidity@ == old.automated_liquidity@
    }

    /// Adds `amount` XRD to the position of receipt `id` and moves it to the
    /// back of the queue of its discount, under a new key with the current
    /// epoch and the next sequence number.
    pub(crate) fn refill_position(&mut self, id: u64, amount: i128, current_epoch: u64)
        requires
            old(self).wf(),
            old(self).receipts@.contains_key(id),
            0 <= amount,
            old(self).total_xrd_locked + amount <= AMOUNT_CAP,
            old(self).liquidity_receipt_counter < u64::MAX,
        ensures
            final(self).wf(),
            final(self).is_refill_of(*old(self), id, amount, current_epoch),
            final(self).same_apart_from_liquidity(*old(self)),
    {
        let ghost old_self = *self;
        let n = self.liquidity_receipt_counter;
        let (discount, old_data) = {
            let receipt = self.receipts.get(&id).unwrap();
            let d = self.liquidity_data.get(&id).unwrap();
            (receipt.discount, *d)
        };
        proof {
            let od = old_self.liquidity_data@;
            lemma_sum_bounds(available_of(od), n as nat, id);
            let lvl = discount_level(discount as int);
            lemma_sum_mono(available_at_level(od, old_self.receipts@, lvl), available_of(od), n as nat);
        }
        self.remove_from_buy_list(id);
        let epoch = #[verifier::truncate] (current_epoch as u32);
        let discount_u64 = discount_basis_points(discount);
        let combined_key = CombinedKey::new(discount_u64, epoch, n);
        let new_data = LiquidityData {
            xrd_liquidity_filled: old_data.xrd_liquidity_filled,
            xrd_liquidity_available: old_data.xrd_liquidity_available + amount,
            fills_to_collect: old_data.fills_to_collect,
            last_added_epoch: epoch,
        };
        self.liquidity_data.insert(id, new_data);
        self.liquidity_receipt_counter = n + 1;
        let ghost b = self.buy_list@;
        self.buy_list.insert(combined_key.key, id);
        let index = discount_index(discount);
        let current = self.liquidity_index[index];
        self.liquidity_index.set(index, current + amount);
        self.total_xrd_locked = self.total_xrd_locked + amount;
        self.xrd_liquidity = self.xrd_liquidity + amount;
        proof {
            let od = old_self.liquidity_data@;
            let rc = old_self.receipts@;
            let nd = self.liquidity_data@;
            let ob = old_self.buy_list@;
            lemma_key_parts(discount_u64, epoch, n);
            assert(nd.dom() =~= od.dom());
            // the entries left after removing the receipt's own
            assert forall|i: int| 0 <= i < b.len() implies rc.contains_key(#[trigger] b[i].1)
                && b[i].1 != id && (b[i].0 as int) % pow64() < n && (b[i].0 as int) / pow96() == discount_bp(rc[b[i].1].discount as int) by {
                if exists|q: int| 0 <= q < ob.len() && ob[q].1 == id {
                    let q = choose|q: int| 0 <= q < ob.len() && ob[q].1 == id;
                    let oi = if i < q { i } else { i + 1 };
                    assert(b[i] == ob[oi]);
                    assert(rc.contains_key(ob[oi].1));
                    if oi < q { assert(ob[oi].1 != ob[q].1); } else if oi > q { assert(ob[q].1 != ob[oi].1); }
                } else {
                    assert(rc.contains_key(ob[i].1));
                }
            }
            assert(!crate::ordered_map::contains_key(b, combined_key.key)) by {
                if crate::ordered_map::contains_key(b, combined_key.key) {
                    let i = choose|i: int| crate::ordered_map::has_key_at(b, i, combined_key.key);
                    assert(rc.contains_key(b[i].1));
                }
            }
            let buy = self.buy_list@;
            let p = count_below(b, combined_key.key);
            assert forall|i: int| 0 <= i < buy.len() implies rc.contains_key(#[trigger] buy[i].1)
                && (buy[i].0 as int) % pow64() < self.liquidity_receipt_counter
                && (buy[i].0 as int) / pow96() == discount_bp(rc[buy[i].1].discount as int) by {
                if i < p {
                    assert(buy[i] == b[i]);
                    assert(rc.contains_key(b[i].1));
                } else if i > p {
                    assert(buy[i] == b[i - 1]);
                    assert(rc.contains_key(b[i - 1].1));
                }
            }
            assert forall|i: int, j: int| 0 <= i < j < buy.len() implies #[trigger] buy[i].1 != #[trigger] buy[j].1 by {
                if i < p {
                    assert(rc.contains_key(b[i].1));
                } else if i > p {
                    assert(rc.contains_key(b[i - 1].1));
                }
                if j < p {
                    assert(rc.contains_key(b[j].1));
                } else if j > p {
                    assert(rc.contains_key(b[j - 1].1));
                }
            }
            // sums: the term of `id` grows by `amount`, the new bound adds a zero term
            lemma_sum_update(available_of(od), available_of(nd), n as nat, id);
            assert(!nd.contains_key(n));
            assert(sum_below(available_of(nd), (n + 1) as nat) == sum_below(available_of(nd), n as nat));
            assert forall|lvl: int| 0 <= lvl < DISCOUNT_LEVELS implies #[trigger] self.liquidity_index@[lvl] == sum_below(
                available_at_level(nd, rc, lvl), (n + 1) as nat) by {
                lemma_sum_update(available_at_level(od, rc, lvl), available_at_level(nd, rc, lvl), n as nat, id);
                assert(sum_below(available_at_level(nd, rc, lvl), (n + 1) as nat)
                    == sum_below(available_at_level(nd, rc, lvl), n as nat));
            }
        }
    }

    /// Why `increase_liquidity` refuses its arguments, if it does: the
    /// position would stay below the minimum liquidity.
    pub open spec fn increase_error(&self, receipt_id: u64, xrd_amount: i128) -> Option<LiquifyError> {
        if self.liquidity_data@[receipt_id].xrd_liquidity_available + xrd_amount < self.minimum_liquidity {
            Some(LiquifyError::IncreaseBelowMinimumLiquidity)
        } else {
            None
        }
    }

    /// Adds `xrd_amount` XRD to the position of receipt `receipt_id` and
    /// moves it to the back of the queue of its discount.
    pub fn increase_liquidity(&mut self, receipt_id: u64, xrd_amount: i128, current_epoch: u64) -> (r: Result<(), LiquifyError>)
        requires
            old(self).wf(),
            old(self).receipts@.contains_key(receipt_id),
            0 <= xrd_amount,
            old(self).total_xrd_locked + xrd_amount <= AMOUNT_CAP,
            old(self).liquidity_receipt_counter < u64::MAX,
        ensures
            final(self).wf(),
            old(self).increase_error(receipt_id, xrd_amount) matches Some(e) ==> {
                &&& r == Err::<(), LiquifyError>(e)
                &&& *final(self) == *old(self)
            },
            old(self).increase_error(receipt_id, xrd_amount) is None ==> {
                &&& r == Ok::<(), LiquifyError>(())
                &&& final(self).is_refill_of(*old(self), receipt_id, xrd_amount, current_epoch)
                &&& final(self).same_apart_from_liquidity(*old(self))
            },
    {
        let available = self.liquidity_data.get(&receipt_id).unwrap().xrd_liquidity_available;
        proof {
            lemma_sum_bounds(available_of(self.liquidity_data@), self.liquidity_receipt_counter as nat, receipt_id);
        }
        if available + xrd_amount < self.minimum_liquidity {
            return Err(LiquifyError::IncreaseBelowMinimumLiquidity);
        }
        self.refill_position(receipt_id, xrd_amount, current_epoch);
        Ok(())
    }
}

} // verus!
