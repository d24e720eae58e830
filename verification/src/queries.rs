//! Reading the state of the pool.
use vstd::prelude::*;
use crate::fills::{claimable_sum, claims_match, first_fills};
use crate::liquify::Liquify;
use crate::types::{AutomationReadyReceipt, LiquidityData, ReceiptDetailData, UnstakeData};

verus! {

broadcast use vstd::std_specs::hash::group_hash_axioms;

/// The positions of receipts `lo` to `hi - 1` that exist, with their data.
pub open spec fn data_range(data: Map<u64, LiquidityData>, lo: int, hi: int) -> Seq<(u64, LiquidityData)>
    decreases hi - lo,
{
    if hi <= lo {
        Seq::empty()
    } else if data.contains_key((hi - 1) as u64) {
        data_range(data, lo, hi - 1).push(((hi - 1) as u64, data[(hi - 1) as u64]))
    } else {
        data_range(data, lo, hi - 1)
    }
}

/// The automated positions whose claimable XRD reaches their refill
/// threshold, in the order of the automation list.
pub open spec fn ready_receipts(
    automated: Seq<u64>,
    claimable: Seq<i128>,
    receipts: Map<u64, crate::types::LiquidityReceipt>,
    automation_fee: i128,
) -> Seq<AutomationReadyReceipt>
    decreases automated.len(),
{
    if automated.len() == 0 || claimable.len() == 0 {
        Seq::empty()
    } else {
        let rest = ready_receipts(automated.drop_last(), claimable.drop_last(), receipts, automation_fee);
        let id = automated.last();
        let c = claimable.last();
        let threshold = receipts[id].refill_threshold;
        if c >= threshold {
            rest.push(AutomationReadyReceipt {
                receipt_id: id,
                claimable_xrd: c,
                refill_threshold: threshold,
                xrd_after_fee: (c - automation_fee) as i128,
            })
        } else {
            rest
        }
    }
}

impl Liquify {
    /// The data of the position of receipt `receipt_id`.
    pub fn get_liquidity_data(&self, receipt_id: u64) -> (r: LiquidityData)
        requires
            self.liquidity_data@.contains_key(receipt_id),
        ensures
            r == self.liquidity_data@[receipt_id],
    {
        *self.liquidity_data.get(&receipt_id).unwrap()
    }

    /// Everything known of the position of receipt `receipt_id`; its
    /// claimable XRD is counted only with auto unstake (`claims` holds the
    /// data of each unstake NFT among its fills).
    pub fn get_receipt_detail(&self, receipt_id: u64, claims: &Vec<Option<UnstakeData>>, current_epoch: u64) -> (r: ReceiptDetailData)
        requires
            self.wf(),
            self.receipts@.contains_key(receipt_id),
            self.receipts@[receipt_id].auto_unstake ==> claims_match(
                first_fills(self.order_fill_tree@, receipt_id, u64::MAX as int), claims@),
        ensures
            ({
                let receipt = self.receipts@[receipt_id];
                let data = self.liquidity_data@[receipt_id];
                &&& r.receipt_id == receipt_id
                &&& r.discount == receipt.discount
                &&& r.auto_unstake == receipt.auto_unstake
                &&& r.auto_refill == receipt.auto_refill
                &&& r.refill_threshold == receipt.refill_threshold
                &&& r.xrd_liquidity_available == data.xrd_liquidity_available
                &&& r.xrd_liquidity_filled == data.xrd_liquidity_filled
                &&& r.fills_to_collect == data.fills_to_collect
                &&& r.last_added_epoch == data.last_added_epoch
                &&& r.claimable_xrd == if receipt.auto_unstake {
                    claimable_sum(first_fills(self.order_fill_tree@, receipt_id, u64::MAX as int), claims@, current_epoch)
                } else {
                    0
                }
            }),
    {
        let (discount, auto_unstake, auto_refill, refill_threshold) = {
            let receipt = self.receipts.get(&receipt_id).unwrap();
            (receipt.discount, receipt.auto_unstake, receipt.auto_refill, receipt.refill_threshold)
        };
        let data = *self.liquidity_data.get(&receipt_id).unwrap();
        let claimable_xrd = if auto_unstake {
            self.calculate_claimable_xrd(receipt_id, claims, current_epoch)
        } else {
            0
        };
        ReceiptDetailData {
            receipt_id,
            discount,
            auto_unstake,
            auto_refill,
            refill_threshold,
            xrd_liquidity_available: data.xrd_liquidity_available,
            xrd_liquidity_filled: data.xrd_liquidity_filled,
            fills_to_collect: data.fills_to_collect,
            last_added_epoch: data.last_added_epoch,
            claimable_xrd,
        }
    }

    /// The claimable XRD of each automated position, in the order of the
    /// automation list (`claims[i]` holds the data of the unstake NFTs among
    /// the fills of the `i`-th).
    pub open spec fn automated_claimable(&self, claims: Seq<Vec<Option<UnstakeData>>>, current_epoch: u64) -> Seq<i128> {
        Seq::new(self.automated_liquidity@.len(), |i: int| claimable_sum(
            first_fills(self.order_fill_tree@, self.automated_liquidity@[i], u64::MAX as int), claims[i]@,
            current_epoch) as i128)
    }

    /// The automated positions ready to be cycled now: those whose claimable
    /// XRD reaches their refill threshold, with that XRD less the automation
    /// fee (`claims[i]` holds the data of the unstake NFTs among the fills of
    /// the `i`-th position of the automation list, in line with them).
    pub fn get_automation_ready_receipts(&self, claims: &Vec<Vec<Option<UnstakeData>>>, current_epoch: u64) -> (r: Vec<AutomationReadyReceipt>)
        requires
            self.wf(),
            claims@.len() == self.automated_liquidity@.len(),
            forall|i: int| 0 <= i < claims@.len() ==> claims_match(
                first_fills(self.order_fill_tree@, self.automated_liquidity@[i], u64::MAX as int), #[trigger] claims@[i]@),
        ensures
            r@ == ready_receipts(self.automated_liquidity@, self.automated_claimable(claims@, current_epoch),
                self.receipts@, self.automation_fee),
    {
        let n = self.automated_liquidity.len();
        let mut claimable: Vec<i128> = Vec::new();
        let mut i: usize = 0;
        while i < n
            invariant
                n == self.automated_liquidity@.len(),
                n == claims@.len(),
                self.wf(),
                i <= n,
                forall|k: int| 0 <= k < claims@.len() ==> claims_match(
                    first_fills(self.order_fill_tree@, self.automated_liquidity@[k], u64::MAX as int), #[trigger] claims@[k]@),
                claimable@ =~= self.automated_claimable(claims@, current_epoch).take(i as int),
                forall|k: int| 0 <= k < claimable@.len() ==> 0 <= #[trigger] claimable@[k],
            decreases n - i,
        {
            let c = self.calculate_claimable_xrd(self.automated_liquidity[i], &claims[i], current_epoch);
            claimable.push(c);
            i = i + 1;
        }
        proof {
            assert(self.automated_claimable(claims@, current_epoch).take(n as int)
                =~= self.automated_claimable(claims@, current_epoch));
        }
        self.ready_from_claimable(&claimable)
    }

    /// The automated positions whose claimable XRD (`claimable[i]` for the
    /// `i`-th of the automation list) reaches their refill threshold, with
    /// that XRD less the automation fee.
    fn ready_from_claimable(&self, claimable: &Vec<i128>) -> (r: Vec<AutomationReadyReceipt>)
        requires
            self.wf(),
            claimable@.len() == self.automated_liquidity@.len(),
            forall|i: int| 0 <= i < claimable@.len() ==> 0 <= #[trigger] claimable@[i],
        ensures
            r@ == ready_receipts(self.automated_liquidity@, claimable@, self.receipts@, self.automation_fee),
    {
        let mut ready: Vec<AutomationReadyReceipt> = Vec::new();
        let n = self.automated_liquidity.len();
        let mut i: usize = 0;
        while i < n
            invariant
                n == self.automated_liquidity@.len(),
                self.wf(),
                claimable@.len() == n,
                forall|k: int| 0 <= k < claimable@.len() ==> 0 <= #[trigger] claimable@[k],
                i <= n,
                ready@ == ready_receipts(self.automated_liquidity@.take(i as int), claimable@.take(i as int),
                    self.receipts@, self.automation_fee),
            decreases n - i,
        {
            let id = self.automated_liquidity[i];
            let c = claimable[i];
            proof {
                assert(self.automated_liquidity@.take(i + 1).drop_last() =~= self.automated_liquidity@.take(i as int));
                assert(claimable@.take(i + 1).drop_last() =~= claimable@.take(i as int));
                assert(self.automated_liquidity@.contains(id));
                assert(0 <= claimable@[i as int]);
            }
            let threshold = self.receipts.get(&id).unwrap().refill_threshold;
            if c >= threshold {
                ready.push(AutomationReadyReceipt {
                    receipt_id: id,
                    claimable_xrd: c,
                    refill_threshold: threshold,
                    xrd_after_fee: c - self.automation_fee,
                });
            }
            i = i + 1;
        }
        proof {
            assert(self.automated_liquidity@.take(n as int) =~= self.automated_liquidity@);
            assert(claimable@.take(n as int) =~= claimable@);
        }
        ready
    }

    /// A page of the buy list: `count` entries from position `start_index`,
    /// in order (best discount, then oldest, first).
    pub fn get_buy_list_range(&self, start_index: u64, count: u64) -> (r: Vec<(u128, u64)>)
        ensures
            ({
                let len = self.buy_list@.len() as int;
                let lo = if (start_index as int) < len { start_index as int } else { len };
                let hi = if lo + count < len { lo + count } else { len };
                r@ == self.buy_list@.subrange(lo, hi)
            }),
    {
        let len = self.buy_list.len();
        let lo: usize = if (start_index as u128) < (len as u128) { start_index as usize } else { len };
        let room = len - lo;
        let take: usize = if (count as u128) < (room as u128) { count as usize } else { room };
        self.buy_list.entries_between(lo, take)
    }

    /// The positions of receipts `start_index + 1` to `start_index + count`
    /// (receipt identifiers start at 1) that exist, with their data.
    pub fn get_liquidity_data_range(&self, start_index: u64, count: u64) -> (r: Vec<(u64, LiquidityData)>)
        requires
            start_index + 1 + count <= u64::MAX,
        ensures
            ({
                let start_id = start_index + 1;
                let end_id = if start_id + count < self.liquidity_receipt_counter {
                    start_id + count
                } else {
                    self.liquidity_receipt_counter as int
                };
                r@ == data_range(self.liquidity_data@, start_id, end_id)
            }),
    {
        let mut results: Vec<(u64, LiquidityData)> = Vec::new();
        let start_id = start_index + 1;
        let end_id = if start_id + count < self.liquidity_receipt_counter { start_id + count } else { self.liquidity_receipt_counter };
        let mut id = start_id;
        while id < end_id
            invariant
                start_id <= id,
                id <= end_id || id == start_id,
                results@ == data_range(self.liquidity_data@, start_id as int, id as int),
            decreases end_id - id,
        {
            match self.liquidity_data.get(&id) {
                Some(d) => {
                    results.push((id, *d));
                },
                None => {},
            }
            id = id + 1;
        }
        proof {
            if end_id < start_id {
                assert(data_range(self.liquidity_data@, start_id as int, end_id as int) == Seq::<(u64, LiquidityData)>::empty());
            }
        }
        results
    }

    /// A page of the automation list: the entries under indexes
    /// `max(start_index, 1)` to that plus `count` (indexes start at 1), each
    /// with its index.
    pub fn get_automated_liquidity_range(&self, start_index: u64, count: u64) -> (r: Vec<(u64, u64)>)
        requires
            (if start_index < 1 { 1 } else { start_index as int }) + count <= u64::MAX,
            self.automated_liquidity@.len() < u64::MAX,
        ensures
            ({
                let start = if start_index < 1 { 1 } else { start_index as int };
                let index = self.automated_liquidity@.len() + 1int;
                let end = if start + count < index { start + count } else { index };
                &&& r@.len() == if end > start { end - start } else { 0 }
                &&& forall|i: int| 0 <= i < r@.len() ==> #[trigger] r@[i] == ((start + i) as u64, self.automated_liquidity@[start + i - 1])
            }),
    {
        let mut results: Vec<(u64, u64)> = Vec::new();
        let start: u64 = if start_index < 1 { 1 } else { start_index };
        let n = self.automated_liquidity.len();
        let index: u64 = (n as u64) + 1;
        let end: u64 = if start + count < index { start + count } else { index };
        let mut k = start;
        while k < end
            invariant
                1 <= start <= k,
                k <= end || k == start,
                end <= index,
                n == self.automated_liquidity@.len(),
                index == n + 1,
                results@.len() == k - start,
                forall|i: int| 0 <= i < results@.len() ==> #[trigger] results@[i] == ((start + i) as u64, self.automated_liquidity@[start + i - 1]),
            decreases end - k,
        {
            proof {
                assert(k - 1 < n);
            }
            let pos = (k - 1) as usize;
            let entry = self.automated_liquidity[pos];
            let ghost before = results@;
            results.push((k, entry));
            proof {
                assert forall|i: int| 0 <= i < results@.len() implies #[trigger] results@[i] == ((start + i) as u64, self.automated_liquidity@[start + i - 1]) by {
                    if i < before.len() {
                        assert(results@[i] == before[i]);
                    }
                }
            }
            k = k + 1;
        }
        results
    }
}

} // verus!
