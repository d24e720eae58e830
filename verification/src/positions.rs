//! Changing the settings of a position and withdrawing its liquidity.
use vstd::prelude::*;
use crate::decimal::ONE;
use crate::discount::{discount_index, discount_level, DISCOUNT_LEVELS};
use crate::liquify::{available_at_level, available_of, without_receipt, Liquify};
use crate::sums::{lemma_sum_bounds, lemma_sum_update, sum_below};
use crate::types::{LiquidityData, LiquidityReceipt, LiquifyError};

verus! {

broadcast use vstd::std_specs::hash::group_hash_axioms;

/// The automation list after receipt `id` leaves it; the other entries keep
/// their order.
pub open spec fn automation_without(s: Seq<u64>, id: u64) -> Seq<u64> {
    if s.contains(id) {
        let p = choose|p: int| 0 <= p < s.len() && s[p] == id;
        s.remove(p)
    } else {
        s
    }
}

/// The buy list without the entries of the receipts in `ids`.
pub open spec fn without_receipts(s: Seq<(u128, u64)>, ids: Seq<u64>) -> Seq<(u128, u64)>
    decreases ids.len(),
{
    if ids.len() == 0 {
        s
    } else {
        without_receipt(without_receipts(s, ids.drop_last()), ids.last())
    }
}

/// The automation list after the receipts in `ids` leave it, in that order.
pub open spec fn automation_without_all(a: Seq<u64>, ids: Seq<u64>) -> Seq<u64>
    decreases ids.len(),
{
    if ids.len() == 0 {
        a
    } else {
        automation_without(automation_without_all(a, ids.drop_last()), ids.last())
    }
}

/// Sum of a sequence of amounts.
pub open spec fn seq_sum(s: Seq<i128>) -> int
    decreases s.len(),
{
    if s.len() == 0 {
        0
    } else {
        seq_sum(s.drop_last()) + s.last()
    }
}

impl Liquify {
    /// Takes receipt `id` out of the automation list, if it is there.
    pub fn remove_from_automation(&mut self, id: u64)
        requires
            old(self).automated_liquidity@.no_duplicates(),
        ensures
            final(self).automated_liquidity@ == automation_without(old(self).automated_liquidity@, id),
            final(self).automated_liquidity@.no_duplicates(),
            forall|x: u64| #[trigger] final(self).automated_liquidity@.contains(x) <==> (
                old(self).automated_liquidity@.contains(x) && x != id),
            final(self).liquidity_receipt_counter == old(self).liquidity_receipt_counter,
            final(self).buy_list == old(self).buy_list,
            final(self).order_fill_tree == old(self).order_fill_tree,
            final(self).receipts == old(self).receipts,
            final(self).liquidity_data == old(self).liquidity_data,
            final(self).total_xrd_volume == old(self).total_xrd_volume,
            final(self).total_xrd_locked == old(self).total_xrd_locked,
            final(self).component_status == old(self).component_status,
            final(self).order_fill_counter == old(self).order_fill_counter,
            final(self).pending_unstake_fills@ == old(self).pending_unstake_fills@,
            final(self).liquidity_index == old(self).liquidity_index,
            final(self).discounts == old(self).discounts,
            final(self).platform_fee == old(self).platform_fee,
            final(self).xrd_liquidity == old(self).xrd_liquidity,
            final(self).fee_vault == old(self).fee_vault,
            final(self).minimum_liquidity == old(self).minimum_liquidity,
            final(self).minimum_refill_threshold == old(self).minimum_refill_threshold,
            final(self).receipt_image_url == old(self).receipt_image_url,
            final(self).automation_fee == old(self).automation_fee,
            final(self).small_order_threshold == old(self).small_order_threshold,
    {
        let ghost a = self.automated_liquidity@;
        let len = self.automated_liquidity.len();
        let mut i: usize = 0;
        while i < len && self.automated_liquidity[i] != id
            invariant
                len == self.automated_liquidity@.len(),
                self.automated_liquidity@ == a,
                i <= len,
                forall|j: int| 0 <= j < i ==> a[j] != id,
            decreases len - i,
        {
            i = i + 1;
        }
        if i < len {
            proof {
                assert(a.contains(id));
                let p = choose|p: int| 0 <= p < a.len() && a[p] == id;
                if p != i as int {
                    assert(a[p] == a[i as int]);
                }
            }
            self.automated_liquidity.remove(i);
            proof {
                let na = self.automated_liquidity@;
                assert(na =~= a.remove(i as int));
                assert forall|x: int, y: int| 0 <= x < na.len() && 0 <= y < na.len() && x != y implies na[x] != na[y] by {
                    let ox = if x < i { x } else { x + 1 };
                    let oy = if y < i { y } else { y + 1 };
                    assert(na[x] == a[ox]);
                    assert(na[y] == a[oy]);
                }
                assert forall|x: u64| #[trigger] na.contains(x) <==> (a.contains(x) && x != id) by {
                    if na.contains(x) {
                        let k = choose|k: int| 0 <= k < na.len() && na[k] == x;
                        let ok = if k < i { k } else { k + 1 };
                        assert(a[ok] == x);
                    }
                    if a.contains(x) && x != id {
                        let k = choose|k: int| 0 <= k < a.len() && a[k] == x;
                        if k < i {
                            assert(na[k] == x);
                        } else {
                            assert(k != i);
                            assert(na[k - 1] == x);
                        }
                    }
                }
            }
        } else {
            proof {
                assert(!a.contains(id));
            }
        }
    }

    /// Why `update_automation` refuses its arguments, if it does: the checks
    /// in the order they are made.
    pub open spec fn update_automation_error(&self, receipt_id: u64, auto_refill: bool, refill_threshold: i128) -> Option<LiquifyError> {
        if refill_threshold > self.liquidity_data@[receipt_id].xrd_liquidity_available {
            Some(LiquifyError::RefillThresholdExceedsAvailable)
        } else if auto_refill && !self.receipts@[receipt_id].auto_unstake {
            Some(LiquifyError::AutoRefillRequiresAutoUnstake)
        } else if auto_refill && refill_threshold < 10000 * ONE {
            Some(LiquifyError::RefillThresholdBelowMinimum)
        } else {
            None
        }
    }

    /// Turns auto refill of a position on or off and sets its refill
    /// threshold; the position enters or leaves the automation list.
    pub fn update_automation(&mut self, receipt_id: u64, auto_refill: bool, refill_threshold: i128) -> (r: Result<(), LiquifyError>)
        requires
            old(self).wf(),
            old(self).receipts@.contains_key(receipt_id),
        ensures
            final(self).wf(),
            match old(self).update_automation_error(receipt_id, auto_refill, refill_threshold) {
                Some(e) => r == Err::<(), LiquifyError>(e) && *final(self) == *old(self),
                None => r == Ok::<(), LiquifyError>(()),
            },
            r is Ok ==> {
                let old_receipt = old(self).receipts@[receipt_id];
                let was = old_receipt.auto_refill;
                &&& final(self).receipts@.dom() == old(self).receipts@.dom()
                &&& forall|j: u64| j != receipt_id ==> #[trigger] final(self).receipts@[j] == old(self).receipts@[j]
                &&& final(self).receipts@[receipt_id].key_image_url@ == old_receipt.key_image_url@
                &&& final(self).receipts@[receipt_id].discount == old_receipt.discount
                &&& final(self).receipts@[receipt_id].auto_unstake == old_receipt.auto_unstake
                &&& final(self).receipts@[receipt_id].auto_refill == auto_refill
                &&& final(self).receipts@[receipt_id].refill_threshold == refill_threshold
                &&& final(self).automated_liquidity@ == if auto_refill && !was {
                    old(self).automated_liquidity@.push(receipt_id)
                } else if !auto_refill && was {
                    automation_without(old(self).automated_liquidity@, receipt_id)
                } else {
                    old(self).automated_liquidity@
                }
                &&& final(self).liquidity_data@ == old(self).liquidity_data@
                &&& final(self).buy_list@ == old(self).buy_list@
                &&& final(self).liquidity_index@ == old(self).liquidity_index@
                &&& final(self).liquidity_receipt_counter == old(self).liquidity_receipt_counter
                &&& final(self).total_xrd_locked == old(self).total_xrd_locked
                &&& final(self).xrd_liquidity == old(self).xrd_liquidity
                &&& final(self).same_apart_from_liquidity(*old(self))
            },
    {
        let (old_receipt_url, discount, auto_unstake, was) = {
            let receipt = self.receipts.get(&receipt_id).unwrap();
            (receipt.key_image_url.clone(), receipt.discount, receipt.auto_unstake, receipt.auto_refill)
        };
        let available = self.liquidity_data.get(&receipt_id).unwrap().xrd_liquidity_available;
        if refill_threshold > available {
            return Err(LiquifyError::RefillThresholdExceedsAvailable);
        }
        if auto_refill {
            if !auto_unstake {
                return Err(LiquifyError::AutoRefillRequiresAutoUnstake);
            }
            if refill_threshold < 10000 * ONE {
                return Err(LiquifyError::RefillThresholdBelowMinimum);
            }
        }
        let ghost old_self = *self;
        if auto_refill && !was {
            self.automated_liquidity.push(receipt_id);
        } else if !auto_refill && was {
            self.remove_from_automation(receipt_id);
        }
        let ghost mid = self.automated_liquidity@;
        self.receipts.insert(receipt_id, LiquidityReceipt {
            key_image_url: old_receipt_url,
            discount,
            auto_unstake,
            auto_refill,
            refill_threshold,
        });
        proof {
            let orc = old_self.receipts@;
            let nrc = self.receipts@;
            let od = self.liquidity_data@;
            let n = self.liquidity_receipt_counter as nat;
            assert(nrc.dom() =~= orc.dom());
            assert forall|lvl: int| 0 <= lvl < DISCOUNT_LEVELS implies #[trigger] self.liquidity_index@[lvl] == sum_below(
                available_at_level(od, nrc, lvl), n) by {
                crate::sums::lemma_sum_agree(available_at_level(od, orc, lvl), available_at_level(od, nrc, lvl), n);
            }
            let oa = old_self.automated_liquidity@;
            assert forall|id: u64| #[trigger] mid.contains(id) <==> (nrc.contains_key(id) && nrc[id].auto_refill) by {
                if auto_refill && !was {
                    if id != receipt_id {
                        if oa.contains(id) {
                            let i = choose|i: int| 0 <= i < oa.len() && oa[i] == id;
                            assert(mid[i] == id);
                        }
                        if mid.contains(id) {
                            let i = choose|i: int| 0 <= i < mid.len() && mid[i] == id;
                            assert(oa[i] == id);
                        }
                    } else {
                        assert(mid.last() == receipt_id);
                    }
                }
            }
            if auto_refill && !was {
                assert(!oa.contains(receipt_id));
                assert forall|x: int, y: int| 0 <= x < mid.len() && 0 <= y < mid.len() && x != y implies mid[x] != mid[y] by {
                    if x < oa.len() && y < oa.len() {
                        assert(mid[x] == oa[x] && mid[y] == oa[y]);
                    } else if x < oa.len() {
                        assert(mid[x] == oa[x]);
                    } else if y < oa.len() {
                        assert(mid[y] == oa[y]);
                    }
                }
            }
        }
        Ok(())
    }

    /// `self` is `old` after `remove_liquidity` withdrew `amounts` from the
    /// positions of `receipt_ids`.
    pub open spec fn removed_positions(&self, old: Self, receipt_ids: Seq<u64>, amounts: Seq<i128>) -> bool {
        let od = old.liquidity_data@;
        let orc = old.receipts@;
        &&& amounts.len() == receipt_ids.len()
        &&& forall|k: int| 0 <= k < receipt_ids.len() ==> #[trigger] amounts[k] == od[receipt_ids[k]].xrd_liquidity_available
        &&& self.liquidity_data@.dom() == od.dom()
        &&& forall|id: u64| #[trigger] od.contains_key(id) ==> self.liquidity_data@[id] == if receipt_ids.contains(id) {
            LiquidityData { xrd_liquidity_available: 0, ..od[id] }
        } else {
            od[id]
        }
        &&& self.receipts@.dom() == orc.dom()
        &&& forall|id: u64| #[trigger] orc.contains_key(id) && !receipt_ids.contains(id) ==> self.receipts@[id] == orc[id]
        &&& forall|id: u64| #[trigger] orc.contains_key(id) && receipt_ids.contains(id) ==> {
            &&& self.receipts@[id].key_image_url@ == orc[id].key_image_url@
            &&& self.receipts@[id].discount == orc[id].discount
            &&& self.receipts@[id].auto_unstake == orc[id].auto_unstake
            &&& !self.receipts@[id].auto_refill
            &&& self.receipts@[id].refill_threshold == orc[id].refill_threshold
        }
        &&& self.buy_list@ == without_receipts(old.buy_list@, receipt_ids)
        &&& self.automated_liquidity@ == automation_without_all(old.automated_liquidity@, receipt_ids)
        &&& self.total_xrd_locked == old.total_xrd_locked - seq_sum(amounts)
        &&& self.xrd_liquidity == old.xrd_liquidity - seq_sum(amounts)
        &&& self.liquidity_receipt_counter == old.liquidity_receipt_counter
        &&& self.same_apart_from_liquidity(old)
    }

    /// Withdraws all the available liquidity of the positions of `receipt_ids`
    /// and returns the amount withdrawn from each. Their auto refill is turned
    /// off and they leave the buy list.
    pub fn remove_liquidity(&mut self, receipt_ids: &Vec<u64>) -> (r: Result<Vec<i128>, LiquifyError>)
        requires
            old(self).wf(),
            receipt_ids@.no_duplicates(),
            forall|k: int| 0 <= k < receipt_ids@.len() ==> old(self).receipts@.contains_key(#[trigger] receipt_ids@[k]),
        ensures
            final(self).wf(),
            (exists|k: int| 0 <= k < receipt_ids@.len()
                && #[trigger] old(self).liquidity_data@[receipt_ids@[k]].xrd_liquidity_available <= 0) ==> {
                &&& r == Err::<Vec<i128>, LiquifyError>(LiquifyError::NoLiquidityToRemove)
                &&& *final(self) == *old(self)
            },
            !(exists|k: int| 0 <= k < receipt_ids@.len()
                && #[trigger] old(self).liquidity_data@[receipt_ids@[k]].xrd_liquidity_available <= 0) ==> r is Ok,
            r matches Ok(amounts) ==> final(self).removed_positions(*old(self), receipt_ids@, amounts@),
    {
        let ids_len = receipt_ids.len();
        let mut k: usize = 0;
        while k < ids_len
            invariant
                ids_len == receipt_ids@.len(),
                k <= ids_len,
                self.wf(),
                forall|j: int| 0 <= j < receipt_ids@.len() ==> self.receipts@.contains_key(#[trigger] receipt_ids@[j]),
                forall|j: int| 0 <= j < k ==> #[trigger] self.liquidity_data@[receipt_ids@[j]].xrd_liquidity_available > 0,
            decreases ids_len - k,
        {
            let id = receipt_ids[k];
            let available = self.liquidity_data.get(&id).unwrap().xrd_liquidity_available;
            if !(available > 0) {
                return Err(LiquifyError::NoLiquidityToRemove);
            }
            k = k + 1;
        }
        let ghost old_self = *self;
        let ghost od = self.liquidity_data@;
        let ghost orc = self.receipts@;
        let ghost n = self.liquidity_receipt_counter as nat;
        let mut amounts: Vec<i128> = Vec::new();
        let mut k: usize = 0;
        while k < ids_len
            invariant
                ids_len == receipt_ids@.len(),
                receipt_ids@.no_duplicates(),
                k <= ids_len,
                self.wf(),
                n == self.liquidity_receipt_counter,
                forall|j: int| 0 <= j < receipt_ids@.len() ==> orc.contains_key(#[trigger] receipt_ids@[j]),
                forall|j: int| 0 <= j < ids_len ==> #[trigger] od[receipt_ids@[j]].xrd_liquidity_available > 0,
                amounts@.len() == k,
                forall|j: int| 0 <= j < k ==> #[trigger] amounts@[j] == od[receipt_ids@[j]].xrd_liquidity_available,
                self.total_xrd_locked == old_self.total_xrd_locked - seq_sum(amounts@),
                self.liquidity_data@.dom() == od.dom(),
                forall|id: u64| #[trigger] od.contains_key(id) ==> self.liquidity_data@[id] == if receipt_ids@.subrange(0, k as int).contains(id) {
                    LiquidityData { xrd_liquidity_available: 0, ..od[id] }
                } else {
                    od[id]
                },
                self.receipts@.dom() == orc.dom(),
                forall|id: u64| #[trigger] orc.contains_key(id) && !receipt_ids@.subrange(0, k as int).contains(id) ==> self.receipts@[id] == orc[id],
                forall|id: u64| #[trigger] orc.contains_key(id) && receipt_ids@.subrange(0, k as int).contains(id) ==> {
                    &&& self.receipts@[id].key_image_url@ == orc[id].key_image_url@
                    &&& self.receipts@[id].discount == orc[id].discount
                    &&& self.receipts@[id].auto_unstake == orc[id].auto_unstake
                    &&& !self.receipts@[id].auto_refill
                    &&& self.receipts@[id].refill_threshold == orc[id].refill_threshold
                },
                self.buy_list@ == without_receipts(old_self.buy_list@, receipt_ids@.subrange(0, k as int)),
                self.automated_liquidity@ == automation_without_all(old_self.automated_liquidity@, receipt_ids@.subrange(0, k as int)),
                self.same_apart_from_liquidity(old_self),
            decreases ids_len - k,
        {
            let id = receipt_ids[k];
            let ghost before = *self;
            let ghost sub = receipt_ids@.subrange(0, k as int);
            let ghost sub1 = receipt_ids@.subrange(0, k + 1);
            proof {
                assert(sub1.drop_last() =~= sub);
                assert(sub1.last() == id);
                assert(!sub.contains(id)) by {
                    if sub.contains(id) {
                        let j = choose|j: int| 0 <= j < sub.len() && sub[j] == id;
                        assert(receipt_ids@[j] == receipt_ids@[k as int]);
                    }
                }
                assert forall|x: u64| sub1.contains(x) <==> (sub.contains(x) || x == id) by {
                    if sub1.contains(x) {
                        let j = choose|j: int| 0 <= j < sub1.len() && sub1[j] == x;
                        if j < k { assert(sub[j] == x); }
                    }
                    if sub.contains(x) {
                        let j = choose|j: int| 0 <= j < sub.len() && sub[j] == x;
                        assert(sub1[j] == x);
                    }
                    if x == id { assert(sub1[k as int] == x); }
                }
            }
            let (url, discount, auto_unstake, auto_refill, refill_threshold) = {
                let receipt = self.receipts.get(&id).unwrap();
                (receipt.key_image_url.clone(), receipt.discount, receipt.auto_unstake, receipt.auto_refill, receipt.refill_threshold)
            };
            let data = *self.liquidity_data.get(&id).unwrap();
            let order_size = data.xrd_liquidity_available;
            proof {
                lemma_sum_bounds(available_of(self.liquidity_data@), n, id);
                let lvl = discount_level(discount as int);
                lemma_sum_bounds(available_at_level(self.liquidity_data@, self.receipts@, lvl), n, id);
            }
            if auto_refill {
                self.receipts.insert(id, LiquidityReceipt {
                    key_image_url: url,
                    discount,
                    auto_unstake,
                    auto_refill: false,
                    refill_threshold,
                });
                proof {
                    assert forall|lvl: int| 0 <= lvl < DISCOUNT_LEVELS implies #[trigger] self.liquidity_index@[lvl] == sum_below(
                        available_at_level(self.liquidity_data@, self.receipts@, lvl), n) by {
                        crate::sums::lemma_sum_agree(available_at_level(self.liquidity_data@, before.receipts@, lvl),
                            available_at_level(self.liquidity_data@, self.receipts@, lvl), n);
                    }
                    assert(self.receipts@.dom() =~= before.receipts@.dom());
                }
                self.remove_from_automation(id);
            } else {
                proof {
                    assert(!self.automated_liquidity@.contains(id));
                }
            }
            let ghost mid = *self;
            let index = discount_index(discount);
            let current = self.liquidity_index[index];
            self.liquidity_index.set(index, current - order_size);
            self.remove_from_buy_list(id);
            self.liquidity_data.insert(id, LiquidityData { xrd_liquidity_available: 0, ..data });
            self.total_xrd_locked = self.total_xrd_locked - order_size;
            self.xrd_liquidity = self.xrd_liquidity - order_size;
            let ghost prev = amounts@;
            amounts.push(order_size);
            proof {
                let md = mid.liquidity_data@;
                let nd = self.liquidity_data@;
                let rc = self.receipts@;
                assert(nd.dom() =~= md.dom());
                lemma_sum_update(available_of(md), available_of(nd), n, id);
                assert forall|lvl: int| 0 <= lvl < DISCOUNT_LEVELS implies #[trigger] self.liquidity_index@[lvl] == sum_below(
                    available_at_level(nd, rc, lvl), n) by {
                    lemma_sum_update(available_at_level(md, rc, lvl), available_at_level(nd, rc, lvl), n, id);
                }
                assert(amounts@.drop_last() =~= prev);
                let b = mid.buy_list@;
                let nb = self.buy_list@;
                assert forall|i: int| 0 <= i < nb.len() implies rc.contains_key(#[trigger] nb[i].1)
                    && (nb[i].0 as int) % crate::combined_key::pow64() < self.liquidity_receipt_counter
                    && (nb[i].0 as int) / crate::combined_key::pow96() == crate::discount::discount_bp(rc[nb[i].1].discount as int) by {
                    if exists|q: int| 0 <= q < b.len() && b[q].1 == id {
                        let q = choose|q: int| 0 <= q < b.len() && b[q].1 == id;
                        let oi = if i < q { i } else { i + 1 };
                        assert(nb[i] == b[oi]);
                        assert(rc.contains_key(b[oi].1));
                    } else {
                        assert(rc.contains_key(b[i].1));
                    }
                }
            }
            k = k + 1;
        }
        proof {
            assert(receipt_ids@.subrange(0, ids_len as int) =~= receipt_ids@);
        }
        Ok(amounts)
    }
}

} // verus!
