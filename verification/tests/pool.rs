use liquify::combined_key::CombinedKey;
use liquify::discount::{discount_basis_points, discount_index};
use liquify::fills::CollectedFill;
use liquify::liquify::Liquify;
use liquify::matching::compute_fill;
use liquify::types::{
    LSUData, LiquidityData, LiquifyError, UnstakeData, UnstakeNFTData, UnstakeNFTOrLSU,
};
use liquify::ONE;

const LSU: [u8; 30] = [7u8; 30];
const NFT_RESOURCE: [u8; 30] = [9u8; 30];

fn xrd(units: i128) -> i128 {
    units * ONE
}

/// A percentage given in hundredths of a percent (basis points), in attos.
fn bps(n: i128) -> i128 {
    n * ONE / 10_000
}

/// An enabled pool without minimums, where orders of any size reach every
/// position.
fn open_pool() -> Liquify {
    let mut pool = Liquify::instantiate_liquify();
    pool.set_component_status(true);
    pool.set_minimum_liquidity(0);
    pool.set_small_order_threshold(0);
    pool
}

#[test]
fn instantiate_sets_defaults() {
    let pool = Liquify::instantiate_liquify();
    assert!(!pool.component_status);
    assert_eq!(pool.liquidity_receipt_counter, 1);
    assert_eq!(pool.order_fill_counter, 1);
    assert_eq!(pool.minimum_liquidity, xrd(10_000));
    assert_eq!(pool.minimum_refill_threshold, xrd(10_000));
    assert_eq!(pool.automation_fee, xrd(5));
    assert_eq!(pool.small_order_threshold, xrd(1000));
    assert_eq!(pool.platform_fee, 0);
    assert_eq!(pool.discounts.len(), 201);
    assert_eq!(pool.discounts[0], 0);
    assert_eq!(pool.discounts[200], bps(500));
    assert_eq!(pool.discounts[4], bps(10));
    assert!(pool.liquidity_index.iter().all(|x| *x == 0));
    assert_eq!(
        pool.receipt_image_url,
        "https://bafybeib7cokm27lwwkunaibn7hczijn3ztkypbzttmt7hymaov44s5e5sm.ipfs.w3s.link/liquify2.png"
    );
}

#[test]
fn combined_key_packs_discount_epoch_and_id() {
    let key = CombinedKey::new(10, 5, 7).key;
    assert_eq!(key, (10u128 << 96) | (5u128 << 64) | 7u128);
    // Only the low 32 bits of the discount are kept.
    assert_eq!(CombinedKey::new(0x1_0000_0003, 0, 0).key, 3u128 << 96);
    // Order: discount first, then epoch, then identifier.
    assert!(CombinedKey::new(1, 900, 900).key < CombinedKey::new(2, 0, 0).key);
    assert!(CombinedKey::new(2, 3, 900).key < CombinedKey::new(2, 4, 0).key);
    assert!(CombinedKey::new(2, 4, 1).key < CombinedKey::new(2, 4, 2).key);
}

#[test]
fn discount_conversions() {
    assert_eq!(discount_basis_points(bps(10)), 10);
    assert_eq!(discount_index(bps(10)), 4);
    // 0.025% is 2.5 basis points, rounded down.
    assert_eq!(discount_basis_points(250_000_000_000_000), 2);
    assert_eq!(discount_index(250_000_000_000_000), 1);
    assert_eq!(discount_basis_points(750_000_000_000_000), 7);
    assert_eq!(discount_index(750_000_000_000_000), 3);
    assert_eq!(discount_basis_points(bps(500)), 500);
    assert_eq!(discount_index(bps(500)), 200);
    assert_eq!(discount_index(0), 0);
}

#[test]
fn fill_prices() {
    // 1000 LSUs worth 1 XRD each at 1% against 1000 XRD: all LSUs for 990 XRD.
    assert_eq!(compute_fill(xrd(1000), xrd(1), bps(100), xrd(1000)), (xrd(1000), xrd(990), xrd(10)));
    // Against 99 XRD: the position pays all it has for a tenth of the LSUs.
    let (lsu, paid, left) = compute_fill(xrd(1000), xrd(1), bps(100), xrd(99));
    assert_eq!(paid, xrd(99));
    assert_eq!(left, 0);
    assert_eq!(lsu, xrd(100));
    // A redemption rate above one scales the value.
    assert_eq!(compute_fill(xrd(10), 2 * ONE, 0, xrd(100)), (xrd(10), xrd(20), xrd(80)));
}

#[test]
fn add_liquidity_refusals() {
    let mut pool = Liquify::instantiate_liquify();
    assert_eq!(pool.add_liquidity(xrd(20_000), bps(100), false, false, 0, 1), Err(LiquifyError::ComponentDisabled));
    pool.set_component_status(true);
    assert_eq!(pool.add_liquidity(xrd(9_999), bps(100), false, false, 0, 1), Err(LiquifyError::BelowMinimumLiquidity));
    assert_eq!(pool.add_liquidity(xrd(20_000), bps(101), false, false, 0, 1), Err(LiquifyError::UnsupportedDiscount));
    assert_eq!(pool.add_liquidity(xrd(20_000), bps(510), false, false, 0, 1), Err(LiquifyError::UnsupportedDiscount));
    assert_eq!(
        pool.add_liquidity(xrd(20_000), bps(100), false, true, xrd(10_000), 1),
        Err(LiquifyError::AutoRefillRequiresAutoUnstake)
    );
    assert_eq!(
        pool.add_liquidity(xrd(20_000), bps(100), true, true, xrd(9_000), 1),
        Err(LiquifyError::RefillThresholdBelowMinimum)
    );
    assert_eq!(pool.liquidity_receipt_counter, 1);
    assert_eq!(pool.buy_list.len(), 0);
    assert_eq!(pool.add_liquidity(xrd(20_000), bps(100), true, true, xrd(10_000), 1), Ok(1));
}

#[test]
fn add_liquidity_records_position() {
    let mut pool = open_pool();
    let id = pool.add_liquidity(xrd(500), bps(100), true, true, xrd(10_000), 42).unwrap();
    assert_eq!(id, 1);
    assert_eq!(pool.liquidity_receipt_counter, 2);
    assert_eq!(
        pool.get_liquidity_data(1),
        LiquidityData { xrd_liquidity_filled: 0, xrd_liquidity_available: xrd(500), fills_to_collect: 0, last_added_epoch: 42 }
    );
    assert_eq!(pool.liquidity_index[40], xrd(500));
    assert_eq!(pool.total_xrd_locked, xrd(500));
    assert_eq!(pool.xrd_liquidity, xrd(500));
    assert_eq!(pool.automated_liquidity, vec![1]);
    assert_eq!(pool.get_buy_list_range(0, 10), vec![(CombinedKey::new(100, 42, 1).key, 1)]);
}

#[test]
fn buy_list_orders_by_discount_then_epoch() {
    let mut pool = open_pool();
    pool.add_liquidity(xrd(100), bps(200), false, false, 0, 5).unwrap();
    pool.add_liquidity(xrd(100), bps(100), false, false, 0, 9).unwrap();
    pool.add_liquidity(xrd(100), bps(100), false, false, 7, 7).unwrap();
    let ids: Vec<u64> = pool.get_buy_list_range(0, 10).iter().map(|e| e.1).collect();
    assert_eq!(ids, vec![3, 2, 1]);
    assert_eq!(pool.get_buy_list_range(1, 1).iter().map(|e| e.1).collect::<Vec<_>>(), vec![2]);
    assert_eq!(pool.get_buy_list_range(5, 1), vec![]);
}

#[test]
fn increase_liquidity_moves_to_back_of_queue() {
    let mut pool = open_pool();
    pool.add_liquidity(xrd(100), bps(100), false, false, 0, 5).unwrap();
    pool.add_liquidity(xrd(100), bps(100), false, false, 0, 5).unwrap();
    pool.set_minimum_liquidity(xrd(150));
    assert_eq!(pool.increase_liquidity(1, xrd(40), 5), Err(LiquifyError::IncreaseBelowMinimumLiquidity));
    assert_eq!(pool.increase_liquidity(1, xrd(60), 5), Ok(()));
    let order: Vec<u64> = pool.get_buy_list_range(0, 10).iter().map(|e| e.1).collect();
    assert_eq!(order, vec![2, 1]);
    assert_eq!(pool.get_buy_list_range(1, 1)[0].0, CombinedKey::new(100, 5, 3).key);
    assert_eq!(pool.liquidity_receipt_counter, 4);
    assert_eq!(pool.get_liquidity_data(1).xrd_liquidity_available, xrd(160));
    assert_eq!(pool.total_xrd_locked, xrd(260));
    assert_eq!(pool.liquidity_index[40], xrd(260));
}

#[test]
fn platform_fee_is_taken_from_the_payout() {
    let mut pool = open_pool();
    pool.set_platform_fee(bps(50));
    for _ in 0..5 {
        pool.add_liquidity(xrd(1000), bps(100), false, false, 0, 1).unwrap();
    }
    let out = pool.liquify_unstake(xrd(1000), LSU, 30, ONE).unwrap();
    // 1000 LSUs at 1% fill 990 XRD; the fee is 0.5% of that.
    assert_eq!(out.platform_fee_amount, 4_950_000_000_000_000_000);
    assert_eq!(out.xrd_to_user, 985_050_000_000_000_000_000);
    assert_eq!(out.lsu_remaining, 0);
    assert_eq!(out.fills.len(), 1);
    assert_eq!(out.fills[0].receipt_id, 1);
    assert_eq!(pool.collect_platform_fees(), 4_950_000_000_000_000_000);
    assert_eq!(pool.collect_platform_fees(), 0);
    assert_eq!(pool.total_xrd_volume, xrd(990));
    assert_eq!(pool.total_xrd_locked, xrd(5000) - xrd(990));
}

#[test]
fn sale_fills_best_discount_first_and_records_lsu_fills() {
    let mut pool = open_pool();
    pool.add_liquidity(xrd(100), bps(200), false, false, 0, 1).unwrap();
    pool.add_liquidity(xrd(99), bps(100), false, false, 0, 1).unwrap();
    let out = pool.liquify_unstake(xrd(150), LSU, 10, ONE).unwrap();
    assert_eq!(out.fills.len(), 2);
    assert_eq!(out.fills[0].receipt_id, 2);
    assert_eq!(out.fills[0].xrd_amount, xrd(99));
    // 99 XRD buy 99 / 148.5 of the 150 LSUs; the ratio is truncated to 18 places.
    assert_eq!(out.fills[0].lsu_amount, 99_999_999_999_999_999_900);
    assert_eq!(out.fills[1].receipt_id, 1);
    assert_eq!(out.fills[1].lsu_amount, 50_000_000_000_000_000_100);
    assert_eq!(out.fills[1].xrd_amount, 49_000_000_000_000_000_098);
    assert_eq!(out.lsu_remaining, 0);
    assert_eq!(out.xrd_to_user, 148_000_000_000_000_000_098);
    // The first position is exhausted and leaves the buy list.
    assert_eq!(pool.get_buy_list_range(0, 10).iter().map(|e| e.1).collect::<Vec<_>>(), vec![1]);
    assert_eq!(pool.get_liquidity_data(2).fills_to_collect, 1);
    assert_eq!(pool.get_liquidity_data(2).xrd_liquidity_filled, xrd(99));
    assert_eq!(pool.get_liquidity_data(1).xrd_liquidity_available, 50_999_999_999_999_999_902);
    assert_eq!(pool.order_fill_counter, 3);
    let fills = pool.receipt_fills(2, u64::MAX);
    assert_eq!(fills, vec![(CombinedKey::new(2, 1, 0).key, UnstakeNFTOrLSU::LSU(LSUData { resource_address: LSU, amount: 99_999_999_999_999_999_900 }))]);
    assert_eq!(pool.liquidity_index[40], 0);
    assert_eq!(pool.liquidity_index[80], 50_999_999_999_999_999_902);
}

#[test]
fn sale_limited_by_iterations_returns_leftover_lsus() {
    let mut pool = open_pool();
    pool.add_liquidity(xrd(10), 0, false, false, 0, 1).unwrap();
    pool.add_liquidity(xrd(10), 0, false, false, 0, 1).unwrap();
    let out = pool.liquify_unstake(xrd(50), LSU, 1, ONE).unwrap();
    assert_eq!(out.fills.len(), 1);
    assert_eq!(out.xrd_to_user, xrd(10));
    assert_eq!(out.lsu_remaining, xrd(40));
}

#[test]
fn off_ledger_sale_skips_unknown_keys() {
    let mut pool = open_pool();
    pool.add_liquidity(xrd(100), bps(10), true, false, 0, 1).unwrap();
    pool.add_liquidity(xrd(100), bps(10), true, false, 0, 1).unwrap();
    let keys: Vec<u128> = pool.get_buy_list_range(0, 10).iter().map(|e| e.0).collect();
    let order = vec![12345u128, keys[1], keys[0]];
    let out = pool.liquify_unstake_off_ledger(xrd(10), LSU, &order, ONE).unwrap();
    assert_eq!(out.fills.len(), 1);
    assert_eq!(out.fills[0].receipt_id, 2);
    assert!(out.fills[0].auto_unstake);
    assert_eq!(out.xrd_to_user, 9_990_000_000_000_000_000);
    // An unstaked fill waits for its NFT before it enters the fill tree.
    assert_eq!(pool.receipt_fills(2, 10), vec![]);
    assert_eq!(pool.pending_unstake_fills, vec![out.fills[0].fill_key]);
    let nft = UnstakeNFTData { resource_address: NFT_RESOURCE, id: [3u8; 32] };
    pool.record_unstake_fills(&vec![(out.fills[0].fill_key, nft)]);
    assert_eq!(pool.receipt_fills(2, 10), vec![(out.fills[0].fill_key, UnstakeNFTOrLSU::UnstakeNFT(nft))]);
    assert_eq!(pool.pending_unstake_fills, Vec::<u128>::new());
}

#[test]
fn repeated_off_ledger_key_is_skipped_once_its_position_is_drained() {
    let mut pool = open_pool();
    pool.add_liquidity(xrd(99), bps(100), false, false, 0, 1).unwrap();
    pool.add_liquidity(xrd(1000), bps(200), false, false, 0, 1).unwrap();
    let k1 = CombinedKey::new(100, 1, 1).key;
    let out = pool.liquify_unstake_off_ledger(xrd(200), LSU, &vec![k1, k1], ONE).unwrap();
    // The first fill drains position 1; the second key names it again and is skipped.
    assert_eq!(out.fills.len(), 1);
    assert_eq!(out.xrd_to_user, xrd(99));
    assert_eq!(out.lsu_remaining, xrd(100));
    assert_eq!(pool.get_liquidity_data(1).xrd_liquidity_available, 0);
    assert_eq!(pool.get_liquidity_data(1).fills_to_collect, 1);
    assert_eq!(pool.get_liquidity_data(2).xrd_liquidity_available, xrd(1000));
    assert_eq!(pool.xrd_liquidity, xrd(1000));
    assert_eq!(pool.total_xrd_locked, xrd(1000));
}

#[test]
fn sale_refused_when_fee_out_of_range() {
    let mut pool = open_pool();
    pool.add_liquidity(xrd(100), 0, false, false, 0, 1).unwrap();
    pool.set_platform_fee(-1);
    assert_eq!(pool.liquify_unstake(xrd(1), LSU, 5, ONE), Err(LiquifyError::PlatformFeeOutOfRange));
    // A sale that pays nothing takes no fee, whatever the fee is.
    let none = pool.liquify_unstake(xrd(1), LSU, 0, ONE).unwrap();
    assert_eq!((none.fills.len(), none.xrd_to_user, none.platform_fee_amount, none.lsu_remaining), (0, 0, 0, xrd(1)));
    let unknown = pool.liquify_unstake_off_ledger(xrd(1), LSU, &vec![12345], ONE).unwrap();
    assert_eq!((unknown.xrd_to_user, unknown.lsu_remaining), (0, xrd(1)));
    pool.set_platform_fee(2 * ONE);
    assert_eq!(pool.liquify_unstake(xrd(1), LSU, 5, ONE), Err(LiquifyError::PlatformFeeOutOfRange));
    assert_eq!(pool.total_xrd_locked, xrd(100));
    assert_eq!(pool.order_fill_counter, 1);
}

#[test]
fn remove_liquidity_withdraws_available_and_ends_automation() {
    let mut pool = open_pool();
    pool.set_minimum_refill_threshold(0);
    pool.add_liquidity(xrd(100), bps(100), true, true, 0, 1).unwrap();
    pool.add_liquidity(xrd(200), bps(100), true, true, 0, 1).unwrap();
    pool.add_liquidity(xrd(300), bps(200), true, true, 0, 1).unwrap();
    assert_eq!(pool.automated_liquidity, vec![1, 2, 3]);
    assert_eq!(pool.remove_liquidity(&vec![1]), Ok(vec![xrd(100)]));
    // The others keep their order.
    assert_eq!(pool.automated_liquidity, vec![2, 3]);
    assert_eq!(pool.get_automated_liquidity_range(0, 10), vec![(1, 2), (2, 3)]);
    assert_eq!(pool.remove_liquidity(&vec![1]), Err(LiquifyError::NoLiquidityToRemove));
    assert_eq!(pool.remove_liquidity(&vec![3, 2]), Ok(vec![xrd(300), xrd(200)]));
    assert_eq!(pool.total_xrd_locked, 0);
    assert_eq!(pool.xrd_liquidity, 0);
    assert_eq!(pool.buy_list.len(), 0);
    assert_eq!(pool.automated_liquidity, Vec::<u64>::new());
    assert_eq!(pool.liquidity_index[40], 0);
    assert_eq!(pool.liquidity_index[80], 0);
}

#[test]
fn update_automation_checks_and_tracking() {
    let mut pool = open_pool();
    pool.add_liquidity(xrd(20_000), bps(100), true, false, 0, 1).unwrap();
    pool.add_liquidity(xrd(20_000), bps(100), false, false, 0, 1).unwrap();
    assert_eq!(pool.update_automation(1, true, xrd(30_000)), Err(LiquifyError::RefillThresholdExceedsAvailable));
    assert_eq!(pool.update_automation(2, true, xrd(10_000)), Err(LiquifyError::AutoRefillRequiresAutoUnstake));
    assert_eq!(pool.update_automation(1, true, xrd(9_999)), Err(LiquifyError::RefillThresholdBelowMinimum));
    assert_eq!(pool.update_automation(1, true, xrd(10_000)), Ok(()));
    assert_eq!(pool.automated_liquidity, vec![1]);
    assert!(pool.receipts[&1].auto_refill);
    assert_eq!(pool.receipts[&1].refill_threshold, xrd(10_000));
    assert_eq!(pool.update_automation(1, true, xrd(12_000)), Ok(()));
    assert_eq!(pool.automated_liquidity, vec![1]);
    assert_eq!(pool.update_automation(1, false, xrd(12_000)), Ok(()));
    assert_eq!(pool.automated_liquidity, Vec::<u64>::new());
    assert!(!pool.receipts[&1].auto_refill);
}

#[test]
fn collect_fills_hands_out_oldest_first_up_to_the_limit() {
    let mut pool = open_pool();
    pool.add_liquidity(xrd(1000), 0, false, false, 0, 1).unwrap();
    for _ in 0..3 {
        pool.liquify_unstake(xrd(10), LSU, 5, ONE).unwrap();
    }
    assert_eq!(pool.get_liquidity_data(1).fills_to_collect, 3);
    let first = pool.collect_fills(&vec![1], 2).unwrap();
    assert_eq!(first.len(), 2);
    assert_eq!(
        first[0],
        CollectedFill {
            receipt_id: 1,
            fill_key: CombinedKey::new(1, 1, 0).key,
            fill: UnstakeNFTOrLSU::LSU(LSUData { resource_address: LSU, amount: xrd(10) }),
        }
    );
    assert_eq!(first[1].fill_key, CombinedKey::new(1, 2, 0).key);
    assert_eq!(pool.get_liquidity_data(1).fills_to_collect, 1);
    let rest = pool.collect_fills(&vec![1], 10).unwrap();
    assert_eq!(rest.len(), 1);
    assert_eq!(rest[0].fill_key, CombinedKey::new(1, 3, 0).key);
    assert_eq!(pool.get_liquidity_data(1).fills_to_collect, 0);
    assert_eq!(pool.collect_fills(&vec![1], 10), Ok(vec![]));
}

fn claim(epoch: u64, amount: i128) -> Option<UnstakeData> {
    Some(UnstakeData { name: String::from("Stake Claim"), claim_epoch: epoch, claim_amount: amount })
}

#[test]
fn cycle_liquidity_full_flow() {
    let mut pool = open_pool();
    pool.set_minimum_refill_threshold(xrd(100));
    pool.add_liquidity(xrd(1000), bps(100), true, true, xrd(200), 10).unwrap();
    let out = pool.liquify_unstake(xrd(1010), LSU, 10, ONE).unwrap();
    assert_eq!(out.fills.len(), 1);
    assert_eq!(out.fills[0].xrd_amount, 999_900_000_000_000_000_000);
    let nft = UnstakeNFTData { resource_address: NFT_RESOURCE, id: [1u8; 32] };
    pool.record_unstake_fills(&vec![(out.fills[0].fill_key, nft)]);
    let claims = vec![claim(510, xrd(1010))];
    // Before the claim epoch nothing is claimable.
    assert_eq!(pool.get_claimable_xrd(1, &claims, 11), 0);
    assert_eq!(pool.cycle_liquidity_claims(1, 10, &claims, 11), Err(LiquifyError::ClaimableBelowThreshold));
    assert_eq!(pool.get_claimable_xrd(1, &claims, 510), xrd(1010));
    let detail = pool.get_receipt_detail(1, &claims, 510);
    assert_eq!(detail.claimable_xrd, xrd(1010));
    assert_eq!(detail.fills_to_collect, 1);
    assert_eq!(pool.cycle_liquidity_claims(1, 0, &claims, 510), Err(LiquifyError::NoFillsToProcess));
    let keys = pool.cycle_liquidity_claims(1, 10, &claims, 510).unwrap();
    assert_eq!(keys, vec![out.fills[0].fill_key]);
    let ready = pool.get_automation_ready_receipts(&vec![claims.clone()], 510);
    assert_eq!(ready.len(), 1);
    assert_eq!(ready[0].xrd_after_fee, xrd(1005));
    assert_eq!(pool.cycle_liquidity(1, 10, &claims, xrd(4), 510), Err(LiquifyError::ClaimedBelowAutomationFee));
    assert_eq!(pool.cycle_liquidity(1, 10, &claims, xrd(1010), 510), Ok(xrd(5)));
    let data = pool.get_liquidity_data(1);
    assert_eq!(data.xrd_liquidity_available, 100_000_000_000_000_000 + xrd(1005));
    assert_eq!(data.fills_to_collect, 0);
    assert_eq!(data.last_added_epoch, 510);
    assert_eq!(pool.receipt_fills(1, 10), vec![]);
    assert_eq!(pool.total_xrd_locked, data.xrd_liquidity_available);
    assert_eq!(pool.get_buy_list_range(0, 1)[0], (CombinedKey::new(100, 510, 2).key, 1));
}

#[test]
fn cycle_refusals() {
    let mut pool = open_pool();
    pool.set_minimum_refill_threshold(0);
    pool.add_liquidity(xrd(100), 0, false, false, 0, 1).unwrap();
    pool.add_liquidity(xrd(100), 0, true, false, 0, 1).unwrap();
    assert_eq!(pool.cycle_liquidity_claims(1, 1, &vec![], 1), Err(LiquifyError::AutomationNotEnabled));
    assert_eq!(pool.cycle_liquidity_claims(2, 1, &vec![], 1), Err(LiquifyError::AutomationNotEnabled));
    assert_eq!(pool.set_automation_fee(-1), Err(LiquifyError::NegativeAutomationFee));
    assert_eq!(pool.set_automation_fee(xrd(2)), Ok(()));
    assert_eq!(pool.automation_fee, xrd(2));
}

#[test]
fn liquidity_data_range_pages_by_receipt() {
    let mut pool = open_pool();
    pool.add_liquidity(xrd(1), 0, false, false, 0, 1).unwrap();
    pool.add_liquidity(xrd(2), 0, false, false, 0, 1).unwrap();
    pool.add_liquidity(xrd(3), 0, false, false, 0, 1).unwrap();
    let page = pool.get_liquidity_data_range(1, 5);
    assert_eq!(page.iter().map(|e| e.0).collect::<Vec<_>>(), vec![2, 3]);
    assert_eq!(page[1].1.xrd_liquidity_available, xrd(3));
    assert_eq!(pool.get_liquidity_data_range(0, 1).len(), 1);
    assert_eq!(pool.get_liquidity_data_range(5, 1), vec![]);
}

#[test]
fn owner_settings() {
    let mut pool = Liquify::instantiate_liquify();
    pool.set_receipt_image_url(String::from("https://example.org/r.png"));
    pool.set_component_status(true);
    pool.set_minimum_liquidity(xrd(1));
    let id = pool.add_liquidity(xrd(1), 0, false, false, 0, 1).unwrap();
    assert_eq!(pool.receipts[&id].key_image_url, "https://example.org/r.png");
    assert_eq!(pool.add_liquidity(xrd(1) - 1, 0, false, false, 0, 1), Err(LiquifyError::BelowMinimumLiquidity));
}

#[test]
fn small_orders_pass_over_positions_that_unstake() {
    let mut pool = open_pool();
    pool.set_small_order_threshold(xrd(100));
    pool.add_liquidity(xrd(200), bps(10), true, false, 0, 1).unwrap();
    pool.add_liquidity(xrd(200), bps(100), false, false, 0, 1).unwrap();
    // 50 LSUs at a rate of 1 are worth 50 XRD: a small order.
    let small = pool.liquify_unstake(xrd(50), LSU, 10, ONE).unwrap();
    assert_eq!(small.fills.len(), 1);
    assert_eq!(small.fills[0].receipt_id, 2);
    assert!(!small.fills[0].auto_unstake);
    assert_eq!(small.xrd_to_user, 49_500_000_000_000_000_000);
    // Passed-over positions still count toward the iterations.
    let limited = pool.liquify_unstake(xrd(10), LSU, 1, ONE).unwrap();
    assert_eq!(limited.fills.len(), 0);
    assert_eq!(limited.lsu_remaining, xrd(10));
    // 150 LSUs are worth 150 XRD: the best position takes them all.
    let large = pool.liquify_unstake(xrd(150), LSU, 10, ONE).unwrap();
    assert_eq!(large.fills.len(), 1);
    assert_eq!(large.fills[0].receipt_id, 1);
    assert_eq!(large.xrd_to_user, 149_850_000_000_000_000_000);
    // The threshold compares the order's XRD value: at a rate of 2, 50 LSUs are 100 XRD.
    let valued = pool.liquify_unstake(xrd(50), LSU, 10, 2 * ONE).unwrap();
    assert_eq!(valued.fills[0].receipt_id, 1);
}

#[test]
fn withdrawing_right_after_depositing_restores_the_pool() {
    let mut pool = open_pool();
    pool.set_minimum_refill_threshold(0);
    pool.add_liquidity(xrd(50), bps(100), true, true, 0, 1).unwrap();
    let buy_list = pool.get_buy_list_range(0, 10);
    let index = pool.liquidity_index.clone();
    let automated = pool.automated_liquidity.clone();
    let id = pool.add_liquidity(xrd(70), bps(100), true, true, 0, 2).unwrap();
    assert_eq!(pool.remove_liquidity(&vec![id]), Ok(vec![xrd(70)]));
    assert_eq!(pool.get_buy_list_range(0, 10), buy_list);
    assert_eq!(pool.liquidity_index, index);
    assert_eq!(pool.automated_liquidity, automated);
    assert_eq!(pool.total_xrd_locked, xrd(50));
    assert_eq!(pool.xrd_liquidity, xrd(50));
}

#[test]
fn new_fees_apply_to_the_next_sale_and_cycle() {
    let mut pool = open_pool();
    pool.set_minimum_refill_threshold(0);
    pool.add_liquidity(xrd(1000), 0, true, true, 0, 1).unwrap();
    pool.set_platform_fee(bps(100));
    let out = pool.liquify_unstake(xrd(100), LSU, 5, ONE).unwrap();
    assert_eq!(out.platform_fee_amount, xrd(1));
    assert_eq!(pool.fee_vault, xrd(1));
    assert_eq!(pool.set_automation_fee(xrd(3)), Ok(()));
    let nft = UnstakeNFTData { resource_address: NFT_RESOURCE, id: [5u8; 32] };
    pool.record_unstake_fills(&vec![(out.fills[0].fill_key, nft)]);
    let claims = vec![claim(10, xrd(100))];
    let ready = pool.get_automation_ready_receipts(&vec![claims.clone()], 10);
    assert_eq!(ready[0].xrd_after_fee, xrd(97));
    let keys = pool.cycle_liquidity_claims(1, 5, &claims, 10).unwrap();
    assert_eq!(pool.cycle_liquidity(1, 5, &claims, xrd(100), 10), Ok(xrd(3)));
}

#[test]
fn limited_claimable_grows_with_the_limit() {
    let mut pool = open_pool();
    pool.add_liquidity(xrd(1000), 0, true, false, 0, 1).unwrap();
    let mut claims = Vec::new();
    for i in 0..3u8 {
        let out = pool.liquify_unstake(xrd(10), LSU, 5, ONE).unwrap();
        let nft = UnstakeNFTData { resource_address: NFT_RESOURCE, id: [i; 32] };
        pool.record_unstake_fills(&vec![(out.fills[0].fill_key, nft)]);
        claims.push(claim(5, xrd(10)));
    }
    let one = pool.calculate_limited_claimable_xrd(1, 1, &claims[..1].to_vec(), 5);
    let two = pool.calculate_limited_claimable_xrd(1, 2, &claims[..2].to_vec(), 5);
    let many = pool.calculate_limited_claimable_xrd(1, 10, &claims, 5);
    assert_eq!((one, two, many), (xrd(10), xrd(20), xrd(30)));
    assert_eq!(many, pool.calculate_claimable_xrd(1, &claims, 5));
    // Collecting two of three leaves one, and the next call takes it.
    assert_eq!(pool.collect_fills(&vec![1], 2).unwrap().len(), 2);
    assert_eq!(pool.get_liquidity_data(1).fills_to_collect, 1);
    assert_eq!(pool.collect_fills(&vec![1], 2).unwrap().len(), 1);
    assert_eq!(pool.get_liquidity_data(1).fills_to_collect, 0);
}

#[test]
fn ordered_map_accepts_only_increasing_keys() {
    let map = liquify::ordered_map::OrderedMap::from_entries(vec![(1u128, 10u64), (5, 50), (9, 90)]).unwrap();
    assert_eq!(map.len(), 3);
    assert_eq!(map.get(5), Some(50));
    assert!(liquify::ordered_map::OrderedMap::from_entries(vec![(5u128, 1u64), (5, 2)]).is_none());
    assert!(liquify::ordered_map::OrderedMap::from_entries(vec![(7u128, 1u64), (3, 2)]).is_none());
}
