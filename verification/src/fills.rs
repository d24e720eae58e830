//! Collecting the fills held for positions.
use vstd::prelude::*;
use crate::combined_key::{lemma_key_parts, spec_pack, CombinedKey};
use crate::liquify::{available_at_level, available_of, Liquify};
use crate::discount::discount_level;
use crate::ordered_map::{count_below, lemma_lower_bound_count, strictly_sorted};
use crate::sums::{lemma_sum_agree, sum_below};
use crate::types::{LiquidityData, LiquifyError, UnstakeData, UnstakeNFTOrLSU};
use crate::matching::AMOUNT_CAP;
use crate::unstake::{map_remove, MAX_ORDER_KEYS};

verus! {

broadcast use vstd::std_specs::hash::group_hash_axioms;

/// A fill handed out of the pool.
#[derive(Debug, Clone, Copy, PartialEq)]
pub struct CollectedFill {
    pub receipt_id: u64,
    pub fill_key: u128,
    pub fill: UnstakeNFTOrLSU,
}

/// Lowest key of the fills of receipt `id`.
pub open spec fn fills_low(id: u64) -> u128 {
    spec_pack(id, 1, 0) as u128
}

/// Highest key of the fills of receipt `id`.
pub open spec fn fills_high(id: u64) -> u128 {
    spec_pack(id, 0xffff_ffff, 0) as u128
}

/// Position in the fill tree of the first fill of receipt `id`.
pub open spec fn fills_start(tree: Seq<(u128, UnstakeNFTOrLSU)>, id: u64) -> int {
    count_below(tree, fills_low(id))
}

/// Position in the fill tree just past the last fill of receipt `id`.
pub open spec fn fills_end(tree: Seq<(u128, UnstakeNFTOrLSU)>, id: u64) -> int {
    count_below(tree, (fills_high(id) + 1) as u128)
}

/// Fills of the tree tagged with the receipt they belong to.
pub open spec fn tag_fills(id: u64, s: Seq<(u128, UnstakeNFTOrLSU)>) -> Seq<CollectedFill> {
    Seq::new(s.len(), |i: int| CollectedFill { receipt_id: id, fill_key: s[i].0, fill: s[i].1 })
}

/// Position data after the fill counts in `updates` are written.
pub open spec fn apply_fill_counts(data: Map<u64, LiquidityData>, updates: Seq<(u64, u64)>) -> Map<u64, LiquidityData>
    decreases updates.len(),
{
    if updates.len() == 0 {
        data
    } else {
        let d = apply_fill_counts(data, updates.drop_last());
        let (id, n) = updates.last();
        d.insert(id, LiquidityData { fills_to_collect: n, ..d[id] })
    }
}

/// The result of collecting: the fill tree left, the fills collected, the
/// new fill counts, and whether a position held more fills than it counts.
pub type CollectResult = (Seq<(u128, UnstakeNFTOrLSU)>, Seq<CollectedFill>, Seq<(u64, u64)>, bool);

/// What one fill adds to the claimable XRD of its position: the claim
/// amount of an unstake NFT whose claim epoch is reached, else nothing.
pub open spec fn claim_term(fill: UnstakeNFTOrLSU, claim: Option<UnstakeData>, current_epoch: u64) -> int {
    match (fill, claim) {
        (UnstakeNFTOrLSU::UnstakeNFT(_), Some(d)) => if current_epoch >= d.claim_epoch { d.claim_amount as int } else { 0 },
        _ => 0,
    }
}

/// XRD claimable from fills, given the data of each unstake NFT among them.
pub open spec fn claimable_sum(
    fills: Seq<(u128, UnstakeNFTOrLSU)>,
    claims: Seq<Option<UnstakeData>>,
    current_epoch: u64,
) -> int
    decreases fills.len(),
{
    if fills.len() == 0 || claims.len() == 0 {
        0
    } else {
        claimable_sum(fills.drop_last(), claims.drop_last(), current_epoch) + claim_term(
            fills.last().1, claims.last(), current_epoch)
    }
}

/// The claim data line up with the fills: data for each unstake NFT, none
/// for each amount of LSUs, with claim amounts in range.
pub open spec fn claims_match(fills: Seq<(u128, UnstakeNFTOrLSU)>, claims: Seq<Option<UnstakeData>>) -> bool {
    &&& claims.len() == fills.len()
    &&& fills.len() <= MAX_ORDER_KEYS
    &&& forall|i: int| 0 <= i < fills.len() ==> ((#[trigger] fills[i]).1 is UnstakeNFT <==> claims[i] is Some)
    &&& forall|i: int| 0 <= i < claims.len() ==> (#[trigger] claims[i] matches Some(d) ==> 0 <= d.claim_amount <= AMOUNT_CAP)
}

/// The fills, among `fills`, of unstake NFTs whose claim epoch is reached: their keys.
pub open spec fn matured_keys(
    fills: Seq<(u128, UnstakeNFTOrLSU)>,
    claims: Seq<Option<UnstakeData>>,
    current_epoch: u64,
) -> Seq<u128>
    decreases fills.len(),
{
    if fills.len() == 0 || claims.len() == 0 {
        Seq::empty()
    } else {
        let rest = matured_keys(fills.drop_last(), claims.drop_last(), current_epoch);
        match (fills.last().1, claims.last()) {
            (UnstakeNFTOrLSU::UnstakeNFT(_), Some(d)) => if current_epoch >= d.claim_epoch { rest.push(fills.last().0) } else { rest },
            _ => rest,
        }
    }
}

/// The fill tree after the entries under `keys` are removed.
pub open spec fn remove_keys<V>(s: Seq<(u128, V)>, keys: Seq<u128>) -> Seq<(u128, V)>
    decreases keys.len(),
{
    if keys.len() == 0 { s } else { map_remove(remove_keys(s, keys.drop_last()), keys.last()) }
}

/// The first `max` fills of receipt `id`, oldest first.
pub open spec fn first_fills(tree: Seq<(u128, UnstakeNFTOrLSU)>, id: u64, max: int) -> Seq<(u128, UnstakeNFTOrLSU)> {
    let start = fills_start(tree, id);
    let end = fills_end(tree, id);
    tree.subrange(start, if end - start < max { end } else { start + max })
}

/// `claimable_sum` of an extended list.
pub(crate) proof fn lemma_claimable_step(fills: Seq<(u128, UnstakeNFTOrLSU)>, claims: Seq<Option<UnstakeData>>, i: int, e: u64)
    requires
        0 <= i < fills.len(),
        claims.len() == fills.len(),
    ensures
        claimable_sum(fills.take(i + 1), claims.take(i + 1), e) == claimable_sum(fills.take(i), claims.take(i), e)
            + claim_term(fills[i].1, claims[i], e),
        matured_keys(fills.take(i + 1), claims.take(i + 1), e) == match (fills[i].1, claims[i]) {
            (UnstakeNFTOrLSU::UnstakeNFT(_), Some(d)) => if e >= d.claim_epoch {
                matured_keys(fills.take(i), claims.take(i), e).push(fills[i].0)
            } else {
                matured_keys(fills.take(i), claims.take(i), e)
            },
            _ => matured_keys(fills.take(i), claims.take(i), e),
        },
{
    assert(fills.take(i + 1).drop_last() =~= fills.take(i));
    assert(claims.take(i + 1).drop_last() =~= claims.take(i));
}

impl Liquify {
    /// Collecting the fills of the positions `ids[k..]`, in order, oldest fill
    /// first, from `tree`, having collected `counter` of at most `limit` fills.
    /// Positions with no fills to collect are passed over; collecting stops
    /// when `limit` fills are collected.
    pub open spec fn collect_from(
        &self,
        tree: Seq<(u128, UnstakeNFTOrLSU)>,
        collected: Seq<CollectedFill>,
        updates: Seq<(u64, u64)>,
        counter: int,
        ids: Seq<u64>,
        k: nat,
        limit: int,
    ) -> CollectResult
        decreases ids.len() - k,
    {
        if k >= ids.len() {
            (tree, collected, updates, false)
        } else {
            let id = ids[k as int];
            let fills = self.liquidity_data@[id].fills_to_collect as int;
            if fills == 0 {
                self.collect_from(tree, collected, updates, counter, ids, k + 1, limit)
            } else if counter >= limit {
                (tree, collected, updates, false)
            } else {
                let start = fills_start(tree, id);
                let end = fills_end(tree, id);
                let t = if end - start < limit - counter { end - start } else { limit - counter };
                if t > fills {
                    (tree, collected, updates, true)
                } else {
                    self.collect_from(
                        tree.subrange(0, start) + tree.subrange(start + t, tree.len() as int),
                        collected + tag_fills(id, tree.subrange(start, start + t)),
                        updates.push((id, (fills - t) as u64)),
                        counter + t,
                        ids,
                        k + 1,
                        limit,
                    )
                }
            }
        }
    }

    /// Hands out up to `number_of_fills_to_collect` fills of the positions of
    /// `receipt_ids`, position by position, oldest fill first, and lowers
    /// their counts of fills to collect.
    pub fn collect_fills(&mut self, receipt_ids: &Vec<u64>, number_of_fills_to_collect: u64) -> (r: Result<Vec<CollectedFill>, LiquifyError>)
        requires
            old(self).wf(),
            receipt_ids@.no_duplicates(),
            forall|k: int| 0 <= k < receipt_ids@.len() ==> old(self).receipts@.contains_key(#[trigger] receipt_ids@[k]),
        ensures
            final(self).wf(),
            ({
                let (tree, collected, updates, failed) = old(self).collect_from(
                    old(self).order_fill_tree@, Seq::empty(), Seq::empty(), 0, receipt_ids@, 0,
                    number_of_fills_to_collect as int);
                if failed {
                    r == Err::<Vec<CollectedFill>, LiquifyError>(LiquifyError::FillCountUnderflow) && *final(self) == *old(self)
                } else {
                    &&& r matches Ok(v) && v@ == collected
                    &&& final(self).order_fill_tree@ == tree
                    &&& final(self).liquidity_data@ == apply_fill_counts(old(self).liquidity_data@, updates)
                    &&& final(self).buy_list@ == old(self).buy_list@
                    &&& final(self).receipts@ == old(self).receipts@
                    &&& final(self).liquidity_index@ == old(self).liquidity_index@
                    &&& final(self).automated_liquidity@ == old(self).automated_liquidity@
                    &&& final(self).liquidity_receipt_counter == old(self).liquidity_receipt_counter
                    &&& final(self).order_fill_counter == old(self).order_fill_counter
                    &&& final(self).pending_unstake_fills@ == old(self).pending_unstake_fills@
                    &&& final(self).total_xrd_volume == old(self).total_xrd_volume
                    &&& final(self).total_xrd_locked == old(self).total_xrd_locked
                    &&& final(self).xrd_liquidity == old(self).xrd_liquidity
                    &&& final(self).fee_vault == old(self).fee_vault
                    &&& final(self).same_settings(*old(self))
                }
            }),
    {
        let ghost full = self.collect_from(self.order_fill_tree@, Seq::empty(), Seq::empty(), 0, receipt_ids@, 0,
            number_of_fills_to_collect as int);
        let mut tree = self.order_fill_tree.copy();
        let mut collected: Vec<CollectedFill> = Vec::new();
        let mut updates: Vec<(u64, u64)> = Vec::new();
        let mut counter: u64 = 0;
        let n = receipt_ids.len();
        let mut k: usize = 0;
        let mut stop = false;
        while k < n && !stop
            invariant
                n == receipt_ids@.len(),
                k <= n,
                self.wf(),
                forall|j: int| 0 <= j < receipt_ids@.len() ==> self.receipts@.contains_key(#[trigger] receipt_ids@[j]),
                strictly_sorted(tree@),
                counter <= number_of_fills_to_collect,
                full == self.collect_from(self.order_fill_tree@, Seq::empty(), Seq::empty(), 0, receipt_ids@, 0,
                    number_of_fills_to_collect as int),
                full == if stop {
                    (tree@, collected@, updates@, false)
                } else {
                    self.collect_from(tree@, collected@, updates@, counter as int, receipt_ids@, k as nat,
                        number_of_fills_to_collect as int)
                },
                forall|j: int| 0 <= j < updates@.len() ==> self.receipts@.contains_key((#[trigger] updates@[j]).0),
            decreases n - k + if stop { 0int } else { 1int },
        {
            let id = receipt_ids[k];
            let fills = self.liquidity_data.get(&id).unwrap().fills_to_collect;
            proof {
                reveal_with_fuel(Liquify::collect_from, 1);
            }
            if fills == 0 {
                k = k + 1;
            } else if counter >= number_of_fills_to_collect {
                stop = true;
            } else {
                let lo = CombinedKey::new(id, 1, 0).key;
                let hi = CombinedKey::new(id, 0xffff_ffff, 0).key;
                proof {
                    lemma_key_parts(id, 1, 0);
                    lemma_key_parts(id, 0xffff_ffff, 0);
                }
                let start = tree.lower_bound(lo);
                let end = tree.lower_bound(hi + 1);
                proof {
                    lemma_lower_bound_count(tree@, lo, start as int);
                    lemma_lower_bound_count(tree@, (hi + 1) as u128, end as int);
                    if end < start {
                        assert(tree@[end as int].0 >= hi + 1);
                        assert(tree@[end as int].0 < lo);
                    }
                }
                let room = number_of_fills_to_collect - counter;
                let t: u64 = if ((end - start) as u64) < room { (end - start) as u64 } else { room };
                if t > fills {
                    return Err(LiquifyError::FillCountUnderflow);
                }
                let taken = tree.entries_between(start, t as usize);
                let ghost before = collected@;
                let mut i: usize = 0;
                while i < taken.len()
                    invariant
                        i <= taken@.len(),
                        collected@ == before + tag_fills(id, taken@.take(i as int)),
                    decreases taken@.len() - i,
                {
                    let (key, fill) = taken[i];
                    collected.push(CollectedFill { receipt_id: id, fill_key: key, fill });
                    i = i + 1;
                    proof {
                        assert(collected@ =~= before + tag_fills(id, taken@.take(i as int)));
                    }
                }
                proof {
                    assert(taken@.take(taken@.len() as int) =~= taken@);
                }
                tree.remove_range(start, t as usize);
                let ghost up_before = updates@;
                updates.push((id, fills - t));
                counter = counter + t;
                k = k + 1;
                proof {
                    assert forall|j: int| 0 <= j < updates@.len() implies self.receipts@.contains_key((#[trigger] updates@[j]).0) by {
                        if j < up_before.len() {
                            assert(updates@[j] == up_before[j]);
                        }
                    }
                }
            }
        }
        proof {
            if !stop {
                reveal_with_fuel(Liquify::collect_from, 1);
            }
        }
        self.order_fill_tree = tree;
        let ghost old_self = *self;
        proof {
            assert forall|q: int| 0 <= q < updates@.len() implies old_self.liquidity_data@.contains_key(#[trigger] updates@[q].0) by {
                assert(old_self.receipts@.contains_key(updates@[q].0));
            }
        }
        let m = updates.len();
        let mut j: usize = 0;
        while j < m
            invariant
                m == updates@.len(),
                j <= m,
                self.liquidity_data@ == apply_fill_counts(old_self.liquidity_data@, updates@.take(j as int)),
                self.liquidity_data@.dom() == old_self.liquidity_data@.dom(),
                forall|id: u64| #[trigger] self.liquidity_data@.contains_key(id) ==>
                    self.liquidity_data@[id].xrd_liquidity_available == old_self.liquidity_data@[id].xrd_liquidity_available,
                forall|q: int| 0 <= q < updates@.len() ==> old_self.liquidity_data@.contains_key(#[trigger] updates@[q].0),
                *self == (Liquify { liquidity_data: self.liquidity_data, ..old_self }),
                old_self.wf(),
            decreases m - j,
        {
            let (id, count) = updates[j];
            let d = *self.liquidity_data.get(&id).unwrap();
            self.liquidity_data.insert(id, LiquidityData { fills_to_collect: count, ..d });
            j = j + 1;
            proof {
                assert(updates@.take(j as int).drop_last() =~= updates@.take(j - 1));
                assert(self.liquidity_data@.dom() =~= old_self.liquidity_data@.dom());
            }
        }
        proof {
            assert(updates@.take(m as int) =~= updates@);
            let od = old_self.liquidity_data@;
            let nd = self.liquidity_data@;
            let n = self.liquidity_receipt_counter as nat;
            lemma_sum_agree(available_of(od), available_of(nd), n);
            assert forall|lvl: int| 0 <= lvl < crate::discount::DISCOUNT_LEVELS implies #[trigger] self.liquidity_index@[lvl]
                == sum_below(available_at_level(nd, self.receipts@, lvl), n) by {
                lemma_sum_agree(available_at_level(od, self.receipts@, lvl), available_at_level(nd, self.receipts@, lvl), n);
            }
        }
        Ok(collected)
    }

    /// The first `max_fills` fills of receipt `receipt_id`, oldest first,
    /// each with its key.
    pub fn receipt_fills(&self, receipt_id: u64, max_fills: u64) -> (r: Vec<(u128, UnstakeNFTOrLSU)>)
        requires
            self.wf(),
        ensures
            r@ == first_fills(self.order_fill_tree@, receipt_id, max_fills as int),
    {
        let lo = CombinedKey::new(receipt_id, 1, 0).key;
        let hi = CombinedKey::new(receipt_id, 0xffff_ffff, 0).key;
        proof {
            lemma_key_parts(receipt_id, 1, 0);
            lemma_key_parts(receipt_id, 0xffff_ffff, 0);
        }
        let start = self.order_fill_tree.lower_bound(lo);
        let end = self.order_fill_tree.lower_bound(hi + 1);
        proof {
            lemma_lower_bound_count(self.order_fill_tree@, lo, start as int);
            lemma_lower_bound_count(self.order_fill_tree@, (hi + 1) as u128, end as int);
            if end < start {
                assert(self.order_fill_tree@[end as int].0 >= hi + 1);
                assert(self.order_fill_tree@[end as int].0 < lo);
            }
        }
        let count: usize = if ((end - start) as u64) < max_fills { end - start } else { max_fills as usize };
        self.order_fill_tree.entries_between(start, count)
    }

    /// XRD claimable from `fills` now: the claim amounts of the unstake NFTs
    /// among them whose claim epoch is reached (`claims` holds the data of
    /// each unstake NFT, in line with `fills`).
    pub fn claimable_of_fills(
        fills: &Vec<(u128, UnstakeNFTOrLSU)>,
        claims: &Vec<Option<UnstakeData>>,
        current_epoch: u64,
    ) -> (r: i128)
        requires
            claims_match(fills@, claims@),
        ensures
            r == claimable_sum(fills@, claims@, current_epoch),
            0 <= r,
    {
        let n = fills.len();
        let mut total: i128 = 0;
        let mut i: usize = 0;
        while i < n
            invariant
                n == fills@.len(),
                claims_match(fills@, claims@),
                i <= n,
                total == claimable_sum(fills@.take(i as int), claims@.take(i as int), current_epoch),
                0 <= total <= i * AMOUNT_CAP,
            decreases n - i,
        {
            proof {
                lemma_claimable_step(fills@, claims@, i as int, current_epoch);
                assert((i + 1) * AMOUNT_CAP == i * AMOUNT_CAP + AMOUNT_CAP) by (nonlinear_arith);
                vstd::arithmetic::mul::lemma_mul_inequality((i + 1) as int, MAX_ORDER_KEYS as int, AMOUNT_CAP as int);
                let _ = fills@[i as int];
                let _ = claims@[i as int];
            }
            let is_nft = match fills[i].1 {
                UnstakeNFTOrLSU::UnstakeNFT(_) => true,
                UnstakeNFTOrLSU::LSU(_) => false,
            };
            if is_nft {
                match &claims[i] {
                    Some(d) => {
                        if current_epoch >= d.claim_epoch {
                            total = total + d.claim_amount;
                        }
                    },
                    None => {},
                }
            }
            i = i + 1;
        }
        proof {
            assert(fills@.take(n as int) =~= fills@);
            assert(claims@.take(n as int) =~= claims@);
        }
        total
    }

    /// XRD claimable now from all the fills of receipt `receipt_id`
    /// (`claims` holds the data of each unstake NFT among
    /// `self.receipt_fills(receipt_id, u64::MAX)`, in line with them).
    pub fn calculate_claimable_xrd(&self, receipt_id: u64, claims: &Vec<Option<UnstakeData>>, current_epoch: u64) -> (r: i128)
        requires
            self.wf(),
            claims_match(first_fills(self.order_fill_tree@, receipt_id, u64::MAX as int), claims@),
        ensures
            r == claimable_sum(first_fills(self.order_fill_tree@, receipt_id, u64::MAX as int), claims@, current_epoch),
            0 <= r,
    {
        let fills = self.receipt_fills(receipt_id, u64::MAX);
        Self::claimable_of_fills(&fills, claims, current_epoch)
    }

    /// XRD claimable now from the first `max_fills` fills of receipt
    /// `receipt_id` (`claims` in line with `self.receipt_fills(receipt_id, max_fills)`).
    pub fn calculate_limited_claimable_xrd(&self, receipt_id: u64, max_fills: u64, claims: &Vec<Option<UnstakeData>>, current_epoch: u64) -> (r: i128)
        requires
            self.wf(),
            claims_match(first_fills(self.order_fill_tree@, receipt_id, max_fills as int), claims@),
        ensures
            r == claimable_sum(first_fills(self.order_fill_tree@, receipt_id, max_fills as int), claims@, current_epoch),
    {
        let fills = self.receipt_fills(receipt_id, max_fills);
        Self::claimable_of_fills(&fills, claims, current_epoch)
    }

    /// XRD claimable now from all the fills of receipt `receipt_id`.
    pub fn get_claimable_xrd(&self, receipt_id: u64, claims: &Vec<Option<UnstakeData>>, current_epoch: u64) -> (r: i128)
        requires
            self.wf(),
            claims_match(first_fills(self.order_fill_tree@, receipt_id, u64::MAX as int), claims@),
        ensures
            r == claimable_sum(first_fills(self.order_fill_tree@, receipt_id, u64::MAX as int), claims@, current_epoch),
    {
        self.calculate_claimable_xrd(receipt_id, claims, current_epoch)
    }

    /// Why cycling the position of `receipt_id` is refused, if it is: the
    /// checks in the order they are made, over its first `max_fills` fills.
    pub open spec fn cycle_error(&self, receipt_id: u64, max_fills: u64, claims: Seq<Option<UnstakeData>>, current_epoch: u64) -> Option<LiquifyError> {
        let receipt = self.receipts@[receipt_id];
        let fills = first_fills(self.order_fill_tree@, receipt_id, max_fills as int);
        if !receipt.auto_refill {
            Some(LiquifyError::AutomationNotEnabled)
        } else if !receipt.auto_unstake {
            Some(LiquifyError::AutoUnstakeRequired)
        } else if max_fills == 0 {
            Some(LiquifyError::NoFillsToProcess)
        } else if claimable_sum(fills, claims, current_epoch) < receipt.refill_threshold {
            Some(LiquifyError::ClaimableBelowThreshold)
        } else if exists|i: int| 0 <= i < fills.len() && (#[trigger] fills[i]).1 is LSU {
            Some(LiquifyError::CannotCycleLsuFills)
        } else {
            None
        }
    }

    /// The first step of cycling a position: checks that it can be cycled
    /// and returns the keys of the unstake NFTs, among its first
    /// `max_fills_to_process` fills, that can be claimed now.
    pub fn cycle_liquidity_claims(
        &self,
        receipt_id: u64,
        max_fills_to_process: u64,
        claims: &Vec<Option<UnstakeData>>,
        current_epoch: u64,
    ) -> (r: Result<Vec<u128>, LiquifyError>)
        requires
            self.wf(),
            self.receipts@.contains_key(receipt_id),
            claims_match(first_fills(self.order_fill_tree@, receipt_id, max_fills_to_process as int), claims@),
        ensures
            match self.cycle_error(receipt_id, max_fills_to_process, claims@, current_epoch) {
                Some(e) => r == Err::<Vec<u128>, LiquifyError>(e),
                None => r matches Ok(v) && v@ == matured_keys(
                    first_fills(self.order_fill_tree@, receipt_id, max_fills_to_process as int), claims@, current_epoch),
            },
    {
        let (auto_refill, auto_unstake, refill_threshold) = {
            let receipt = self.receipts.get(&receipt_id).unwrap();
            (receipt.auto_refill, receipt.auto_unstake, receipt.refill_threshold)
        };
        if !auto_refill {
            return Err(LiquifyError::AutomationNotEnabled);
        }
        if !auto_unstake {
            return Err(LiquifyError::AutoUnstakeRequired);
        }
        if max_fills_to_process == 0 {
            return Err(LiquifyError::NoFillsToProcess);
        }
        let fills = self.receipt_fills(receipt_id, max_fills_to_process);
        let claimable = Self::claimable_of_fills(&fills, claims, current_epoch);
        if claimable < refill_threshold {
            return Err(LiquifyError::ClaimableBelowThreshold);
        }
        let n = fills.len();
        let mut keys: Vec<u128> = Vec::new();
        let mut i: usize = 0;
        while i < n
            invariant
                n == fills@.len(),
                claims_match(fills@, claims@),
                i <= n,
                forall|j: int| 0 <= j < i ==> (#[trigger] fills@[j]).1 is UnstakeNFT,
                keys@ == matured_keys(fills@.take(i as int), claims@.take(i as int), current_epoch),
                fills@ == first_fills(self.order_fill_tree@, receipt_id, max_fills_to_process as int),
                claimable == claimable_sum(fills@, claims@, current_epoch),
                self.receipts@.contains_key(receipt_id),
                claimable >= self.receipts@[receipt_id].refill_threshold,
                self.receipts@[receipt_id].auto_refill,
                self.receipts@[receipt_id].auto_unstake,
                max_fills_to_process > 0,
            decreases n - i,
        {
            proof {
                lemma_claimable_step(fills@, claims@, i as int, current_epoch);
                let _ = fills@[i as int];
            }
            let key = fills[i].0;
            match fills[i].1 {
                UnstakeNFTOrLSU::LSU(_) => {
                    proof {
                        assert(fills[i as int] == fills@[i as int]);
                        assert((fills@[i as int]).1 is LSU);
                        assert(exists|j: int| 0 <= j < fills@.len() && (#[trigger] fills@[j]).1 is LSU);
                        assert(claimable as int == claimable_sum(fills@, claims@, current_epoch));
                    }
                    return Err(LiquifyError::CannotCycleLsuFills);
                },
                UnstakeNFTOrLSU::UnstakeNFT(_) => {
                    match &claims[i] {
                        Some(d) => {
                            if current_epoch >= d.claim_epoch {
                                keys.push(key);
                            }
                        },
                        None => {},
                    }
                },
            }
            i = i + 1;
        }
        proof {
            assert(fills@.take(n as int) =~= fills@);
            assert(claims@.take(n as int) =~= claims@);
        }
        Ok(keys)
    }

    /// What cycling answers when the claims brought `claimed_xrd` XRD: the
    /// automation fee, for the caller, or a refusal when they do not cover it.
    pub open spec fn cycle_result(&self, claimed_xrd: int) -> Result<i128, LiquifyError> {
        if claimed_xrd < self.automation_fee {
            Err(LiquifyError::ClaimedBelowAutomationFee)
        } else {
            Ok(self.automation_fee)
        }
    }

    /// `self` is `old` after the unstake NFTs under `claimed_keys` were claimed
    /// for `claimed_xrd` XRD and the position of `receipt_id` was refilled
    /// with them (or not, when they do not cover the automation fee), with
    /// result `r`.
    pub open spec fn cycled_position(
        &self,
        old: Self,
        receipt_id: u64,
        claimed_keys: Seq<u128>,
        claimed_xrd: i128,
        current_epoch: u64,
        r: Result<i128, LiquifyError>,
    ) -> bool {
        &&& (claimed_xrd < old.automation_fee ==> {
            &&& r == Err::<i128, LiquifyError>(LiquifyError::ClaimedBelowAutomationFee)
            &&& *self == old
        })
        &&& (claimed_xrd >= old.automation_fee ==> {
            let epoch = #[verifier::truncate] (current_epoch as u32);
            let old_data = old.liquidity_data@[receipt_id];
            let added = claimed_xrd - old.automation_fee;
            let lvl = discount_level(old.receipts@[receipt_id].discount as int);
            let processed = claimed_keys.len();
            &&& r == Ok::<i128, LiquifyError>(old.automation_fee)
            &&& self.order_fill_tree@ =~= remove_keys(old.order_fill_tree@, claimed_keys)
            &&& self.liquidity_data@ =~= old.liquidity_data@.insert(receipt_id, LiquidityData {
                xrd_liquidity_filled: old_data.xrd_liquidity_filled,
                xrd_liquidity_available: (old_data.xrd_liquidity_available + added) as i128,
                fills_to_collect: if old_data.fills_to_collect >= processed {
                    (old_data.fills_to_collect - processed) as u64
                } else {
                    0
                },
                last_added_epoch: epoch,
            })
            &&& self.liquidity_receipt_counter == old.liquidity_receipt_counter + 1
            &&& self.receipts@ =~= old.receipts@
            &&& self.buy_list@ =~= old.rekeyed_buy_list(receipt_id, epoch, old.liquidity_receipt_counter)
            &&& self.liquidity_index@ =~= old.liquidity_index@.update(lvl, (old.liquidity_index@[lvl] + added) as i128)
            &&& self.total_xrd_locked == old.total_xrd_locked + added
            &&& self.xrd_liquidity == old.xrd_liquidity + added
            &&& self.automated_liquidity@ =~= old.automated_liquidity@
            &&& self.order_fill_counter == old.order_fill_counter
            &&& self.pending_unstake_fills@ == old.pending_unstake_fills@
            &&& self.total_xrd_volume == old.total_xrd_volume
            &&& self.fee_vault == old.fee_vault
            &&& self.same_settings(old)
        })
    }

    /// Refills a position with the unstake NFTs under `claimed_keys`, claimed
    /// for `claimed_xrd` XRD: they leave the fill tree and the position's
    /// count of fills; the automation fee is kept for the caller and the rest
    /// is added to the position, which moves to the back of the queue of its
    /// discount. Returns the automation fee.
    fn settle_cycle(
        &mut self,
        receipt_id: u64,
        claimed_keys: &Vec<u128>,
        claimed_xrd: i128,
        current_epoch: u64,
    ) -> (r: Result<i128, LiquifyError>)
        requires
            old(self).wf(),
            old(self).receipts@.contains_key(receipt_id),
            0 <= claimed_xrd,
            old(self).total_xrd_locked + claimed_xrd <= AMOUNT_CAP,
            old(self).liquidity_receipt_counter < u64::MAX,
        ensures
            final(self).wf(),
            r == old(self).cycle_result(claimed_xrd as int),
            final(self).cycled_position(*old(self), receipt_id, claimed_keys@, claimed_xrd, current_epoch, r),
    {
        if claimed_xrd < self.automation_fee {
            return Err(LiquifyError::ClaimedBelowAutomationFee);
        }
        let ghost old_self = *self;
        let n = claimed_keys.len();
        let mut i: usize = 0;
        while i < n
            invariant
                n == claimed_keys@.len(),
                i <= n,
                self.wf(),
                self.order_fill_tree@ == remove_keys(old_self.order_fill_tree@, claimed_keys@.take(i as int)),
                *self == (Liquify { order_fill_tree: self.order_fill_tree, ..old_self }),
            decreases n - i,
        {
            proof {
                assert(claimed_keys@.take(i + 1).drop_last() =~= claimed_keys@.take(i as int));
            }
            self.order_fill_tree.remove(claimed_keys[i]);
            i = i + 1;
        }
        proof {
            assert(claimed_keys@.take(n as int) =~= claimed_keys@);
        }
        let d = *self.liquidity_data.get(&receipt_id).unwrap();
        let processed = n as u64;
        let remaining_fills = if d.fills_to_collect >= processed { d.fills_to_collect - processed } else { 0 };
        let ghost before_counts = *self;
        self.liquidity_data.insert(receipt_id, LiquidityData { fills_to_collect: remaining_fills, ..d });
        proof {
            let od = before_counts.liquidity_data@;
            let nd = self.liquidity_data@;
            let nn = self.liquidity_receipt_counter as nat;
            assert(nd.dom() =~= od.dom());
            lemma_sum_agree(available_of(od), available_of(nd), nn);
            assert forall|lvl: int| 0 <= lvl < crate::discount::DISCOUNT_LEVELS implies #[trigger] self.liquidity_index@[lvl]
                == sum_below(available_at_level(nd, self.receipts@, lvl), nn) by {
                lemma_sum_agree(available_at_level(od, self.receipts@, lvl), available_at_level(nd, self.receipts@, lvl), nn);
            }
        }
        let fee = self.automation_fee;
        self.refill_position(receipt_id, claimed_xrd - fee, current_epoch);
        Ok(fee)
    }

    /// Cycles a position: the unstake NFTs among its first
    /// `max_fills_to_process` fills that can be claimed now (the keys that
    /// `cycle_liquidity_claims` hands out) were claimed for `claimed_xrd` XRD.
    /// If the position can be cycled they leave the fill tree and the count of
    /// fills, the automation fee is kept for the caller and the rest refills
    /// the position, which moves to the back of the queue of its discount.
    /// Returns the automation fee.
    pub fn cycle_liquidity(
        &mut self,
        receipt_id: u64,
        max_fills_to_process: u64,
        claims: &Vec<Option<UnstakeData>>,
        claimed_xrd: i128,
        current_epoch: u64,
    ) -> (r: Result<i128, LiquifyError>)
        requires
            old(self).wf(),
            old(self).receipts@.contains_key(receipt_id),
            claims_match(first_fills(old(self).order_fill_tree@, receipt_id, max_fills_to_process as int), claims@),
            0 <= claimed_xrd,
            old(self).total_xrd_locked + claimed_xrd <= AMOUNT_CAP,
            old(self).liquidity_receipt_counter < u64::MAX,
        ensures
            final(self).wf(),
            match old(self).cycle_error(receipt_id, max_fills_to_process, claims@, current_epoch) {
                Some(e) => r == Err::<i128, LiquifyError>(e) && *final(self) == *old(self),
                None => {
                    &&& r == old(self).cycle_result(claimed_xrd as int)
                    &&& final(self).cycled_position(*old(self), receipt_id, matured_keys(
                        first_fills(old(self).order_fill_tree@, receipt_id, max_fills_to_process as int), claims@,
                        current_epoch), claimed_xrd, current_epoch, r)
                },
            },
    {
        match self.cycle_liquidity_claims(receipt_id, max_fills_to_process, claims, current_epoch) {
            Err(e) => Err(e),
            Ok(keys) => self.settle_cycle(receipt_id, &keys, claimed_xrd, current_epoch),
        }
    }
}

} // verus!
