//! End-to-end scenarios of the pool: positions are opened, LSUs are sold to
//! them, fills are collected and automated positions are cycled. LSUs are
//! worth one XRD each, as they are when a validator's stake is fresh, and
//! unstake NFTs can be claimed 500 epochs after the sale.
use liquify::liquify::Liquify;
use liquify::types::{LiquifyError, UnstakeData, UnstakeNFTData};
use liquify::ONE;

const LSU: [u8; 30] = [7u8; 30];
const NFT_RESOURCE: [u8; 30] = [9u8; 30];
const UNBONDING_EPOCHS: u64 = 500;

fn xrd(units: i128) -> i128 {
    units * ONE
}

/// An amount given in thousandths, in attos.
fn milli(n: i128) -> i128 {
    n * ONE / 1000
}

/// A pool as its owner sets it up: enabled, with no minimum liquidity.
fn enabled_pool() -> Liquify {
    let mut pool = Liquify::instantiate_liquify();
    pool.set_component_status(true);
    pool.set_minimum_liquidity(0);
    pool
}

/// Ninety positions of 1 XRD: thirty each at 1% and 2% with auto unstake, and
/// thirty at 2.5% with auto unstake and auto refill.
fn interface_pool() -> Liquify {
    let mut pool = enabled_pool();
    pool.set_minimum_refill_threshold(xrd(1));
    for _ in 0..30 {
        for (discount, auto_unstake, auto_refill) in [(milli(10), true, false), (milli(20), true, false), (milli(25), true, true)] {
            let refill_threshold = if auto_refill { xrd(10) } else { 0 };
            pool.add_liquidity(xrd(1), discount, auto_unstake, auto_refill, refill_threshold, 1).unwrap();
        }
    }
    pool
}

#[test]
fn check_iterations_with_interface_instantiate_test() {
    let pool = interface_pool();
    assert_eq!(pool.buy_list.len(), 90);
    assert_eq!(pool.automated_liquidity.len(), 30);
    assert_eq!(pool.total_xrd_locked, xrd(90));
}

#[test]
fn test_interface_iterations() {
    let mut pool = interface_pool();
    let lsu_to_unstake = xrd(1000);
    let out = pool.liquify_unstake(lsu_to_unstake, LSU, 30, ONE).unwrap();
    let xrd_received = out.xrd_to_user;
    let lsu_spent = lsu_to_unstake - out.lsu_remaining;
    assert!(xrd_received > 0, "Should have received XRD from unstaking");
    assert!(lsu_spent > 0, "Should have spent LSUs");
}

#[test]
fn test_platform_fees() {
    let mut pool = enabled_pool();
    let platform_fee = milli(5);
    pool.set_platform_fee(platform_fee);
    for _ in 0..5 {
        pool.add_liquidity(xrd(1000), milli(10), false, false, 0, 1).unwrap();
    }
    let out = pool.liquify_unstake(xrd(1000), LSU, 30, ONE).unwrap();
    let xrd_received = out.xrd_to_user;
    // With a 1% discount the LSUs fetch 990 XRD; the fee is 0.5% of that.
    let liquidity_used = xrd(990);
    let expected_platform_fee = liquidity_used / 1000 * 5;
    let expected_user_receives = liquidity_used - expected_platform_fee;
    let fee_difference = (expected_user_receives - xrd_received).abs();
    assert!(fee_difference < milli(1), "Fee calculation mismatch! Expected {} but got {}", expected_user_receives, xrd_received);
    let fees_collected = pool.collect_platform_fees();
    let collected_difference = (fees_collected - expected_platform_fee).abs();
    assert!(collected_difference < milli(1), "Collected fees mismatch! Expected {} but got {}", expected_platform_fee, fees_collected);
}

#[test]
fn test_cycle_liquidity_full_flow() {
    let mut pool = enabled_pool();
    pool.set_minimum_liquidity(xrd(100));
    pool.set_minimum_refill_threshold(xrd(100));
    let epoch = 1;
    let id = pool.add_liquidity(xrd(1000), milli(10), true, true, xrd(200), epoch).unwrap();
    assert_eq!(id, 1);
    // Selling 1010 LSUs fills the position.
    let out = pool.liquify_unstake(xrd(1010), LSU, 10, ONE).unwrap();
    assert_eq!(out.fills.len(), 1);
    assert!(out.fills[0].auto_unstake);
    let nft = UnstakeNFTData { resource_address: NFT_RESOURCE, id: [1u8; 32] };
    pool.record_unstake_fills(&vec![(out.fills[0].fill_key, nft)]);
    let claims = vec![Some(UnstakeData {
        name: String::from("Stake Claim"),
        claim_epoch: epoch + UNBONDING_EPOCHS,
        claim_amount: out.fills[0].lsu_amount,
    })];
    // Before the unbonding period nothing is claimable and cycling fails.
    assert_eq!(pool.get_claimable_xrd(id, &claims, epoch), 0);
    assert_eq!(pool.cycle_liquidity_claims(id, 10, &claims, epoch), Err(LiquifyError::ClaimableBelowThreshold));
    // 501 epochs later the claim has matured.
    let later = epoch + 501;
    assert_eq!(pool.get_claimable_xrd(id, &claims, later), xrd(1010));
    let keys = pool.cycle_liquidity_claims(id, 10, &claims, later).unwrap();
    let fee = pool.cycle_liquidity(id, 10, &claims, xrd(1010), later).unwrap();
    assert_eq!(fee, xrd(5));
    assert_eq!(pool.get_liquidity_data(id).xrd_liquidity_available, milli(100) + xrd(1005));
    assert_eq!(pool.get_liquidity_data(id).fills_to_collect, 0);
}

/// Three positions of 1000 XRD: at 0.1% without automation, at 1% with auto
/// unstake, and at 5% with auto unstake and auto refill.
fn automation_pool() -> Liquify {
    let mut pool = enabled_pool();
    pool.add_liquidity(xrd(1000), milli(1), false, false, 0, 1).unwrap();
    pool.add_liquidity(xrd(1000), milli(10), true, false, 0, 1).unwrap();
    pool.add_liquidity(xrd(1000), milli(50), true, true, xrd(10000), 1).unwrap();
    pool
}

#[test]
fn test_iteration_impact_of_skipping_automated_orders_instantiate_test() {
    let pool = automation_pool();
    assert_eq!(pool.buy_list.len(), 3);
    assert_eq!(pool.automated_liquidity, vec![3]);
}

#[test]
fn test_basic_liquify_flow() {
    let mut pool = automation_pool();
    let out = pool.liquify_unstake(xrd(5000), LSU, 30, ONE).unwrap();
    assert_eq!(out.fills.len(), 3);
    assert_eq!(out.xrd_to_user, xrd(3000));
}

#[test]
fn test_iteration_impact_of_skipping_automated_orders() {
    let mut pool = automation_pool();
    let automated_positions = 100;
    let manual_positions = 20;
    let max_iterations: u8 = 50;
    for _ in 0..automated_positions {
        pool.add_liquidity(xrd(10), milli(1), true, false, 0, 1).unwrap();
    }
    for _ in 0..manual_positions {
        pool.add_liquidity(xrd(10), milli(2), false, false, 0, 1).unwrap();
    }
    // A small order passes over the positions that unstake.
    let small_unstake = milli(1);
    let out = pool.liquify_unstake(small_unstake, LSU, max_iterations, ONE).unwrap();
    let lsu_spent = small_unstake - out.lsu_remaining;
    assert!(out.fills.iter().all(|f| !f.auto_unstake));
    assert!(lsu_spent > 0);
    // A large order needs far fewer iterations.
    let large = pool.liquify_unstake(xrd(1000), LSU, 10, ONE).unwrap();
    assert_eq!(large.lsu_remaining, 0);
}

/// Fifty positions of 100 XRD at 0.1%, all with auto unstake and auto refill,
/// in a pool whose small order threshold is 1 XRD.
fn off_ledger_pool() -> Liquify {
    let mut pool = enabled_pool();
    pool.set_small_order_threshold(xrd(1));
    pool.set_minimum_refill_threshold(xrd(1));
    pool
}

#[test]
fn test_off_ledger_fills_instantiate_test() {
    let pool = off_ledger_pool();
    assert_eq!(pool.small_order_threshold, xrd(1));
    assert_eq!(pool.minimum_refill_threshold, xrd(1));
}

#[test]
fn test_off_ledger_fills() {
    let mut pool = off_ledger_pool();
    pool.set_minimum_refill_threshold(xrd(1));
    for _ in 0..50 {
        pool.add_liquidity(xrd(100), milli(1), true, true, xrd(100), 1).unwrap();
    }
    // 10 LSUs are worth 10 XRD, above the threshold.
    let regular = pool.liquify_unstake(xrd(10), LSU, 30, ONE).unwrap();
    assert!(regular.xrd_to_user > 0, "Large regular unstaking should work with auto_unstake=true positions");
    // Off ledger, with the keys of the first thirty positions of the book,
    // read from the buy list: keys pack discount, epoch and sequence number
    // (see `CombinedKey::new`), so they are taken from the pool rather than
    // packed by hand.
    let order_keys: Vec<u128> = pool.get_buy_list_range(0, 30).iter().map(|e| e.0).collect();
    let off_ledger = pool.liquify_unstake_off_ledger(xrd(100), LSU, &order_keys, ONE).unwrap();
    assert!(off_ledger.xrd_to_user > 0, "Off-ledger unstaking should work with correct keys");
    // Half an LSU is a small order: the positions that unstake are passed over.
    let small = pool.liquify_unstake(milli(500), LSU, 30, ONE).unwrap();
    assert_eq!(small.xrd_to_user, 0);
    assert_eq!(small.lsu_remaining, milli(500));
}

#[test]
fn test_small_order_threshold_enforcement() {
    let mut pool = enabled_pool();
    pool.set_small_order_threshold(xrd(100));
    let platform_fee = ONE / 10_000 * 5;
    pool.set_platform_fee(platform_fee);
    // The best discount belongs to a position with auto unstake.
    pool.add_liquidity(xrd(200), milli(1), true, false, 0, 1).unwrap();
    pool.add_liquidity(xrd(200), milli(10), false, false, 0, 1).unwrap();

    // 50 LSUs are a small order: the 1% position buys them.
    let redemption_value = xrd(50);
    let out = pool.liquify_unstake(redemption_value, LSU, 10, ONE).unwrap();
    let expected_total_discount = milli(10) + platform_fee;
    let actual_discount = (redemption_value - out.xrd_to_user) * ONE / redemption_value;
    assert!(
        actual_discount >= expected_total_discount / 100 * 98 && actual_discount <= expected_total_discount / 100 * 102,
        "Small order should have skipped the automated position, but got a discount of {}",
        actual_discount
    );

    // 150 LSUs are a large order: the 0.1% position buys them.
    let redemption_value = xrd(150);
    let out = pool.liquify_unstake(redemption_value, LSU, 10, ONE).unwrap();
    let expected_total_discount = milli(1) + platform_fee;
    let actual_discount = (redemption_value - out.xrd_to_user) * ONE / redemption_value;
    assert!(
        actual_discount >= expected_total_discount / 100 * 98 && actual_discount <= expected_total_discount / 100 * 102,
        "Large order should have used the automated position, but got a discount of {}",
        actual_discount
    );
}

#[test]
fn test_scalability() {
    let mut pool = enabled_pool();
    let mut current_tree_size = 0;
    for target_size in [0, 100, 500, 1000] {
        for i in current_tree_size..target_size {
            let discount = match i % 5 {
                0 => milli(1),
                1 => milli(5),
                2 => milli(10),
                3 => milli(15),
                _ => milli(20),
            };
            pool.add_liquidity(xrd(1), discount, false, false, 0, 1).unwrap();
        }
        current_tree_size = target_size;
        pool.add_liquidity(xrd(10), milli(10), false, false, 0, 1).unwrap();
        let out = pool.liquify_unstake(xrd(10), LSU, 5, ONE).unwrap();
        assert!(out.fills.len() <= 5);
    }
}
