//! The records that the pool keeps and hands out.
use vstd::prelude::*;

verus! {

/// The 30 bytes of a resource address.
pub type ResourceBytes = [u8; 30];

/// The 32 bytes of the identifier of an unstake (stake claim) NFT.
pub type NftIdBytes = [u8; 32];

/// Data of an unstake NFT that the pool reads: when it can be claimed, and
/// for how much XRD.
#[derive(Debug, Clone, PartialEq)]
pub struct UnstakeData {
    pub name: String,
    pub claim_epoch: u64,
    pub claim_amount: i128,
}

/// Everything known of one liquidity position, as a single record.
#[derive(Debug, Clone, PartialEq)]
pub struct ReceiptDetailData {
    pub receipt_id: u64,
    pub discount: i128,
    pub auto_unstake: bool,
    pub auto_refill: bool,
    pub refill_threshold: i128,
    pub xrd_liquidity_available: i128,
    pub xrd_liquidity_filled: i128,
    pub fills_to_collect: u64,
    pub last_added_epoch: u32,
    pub claimable_xrd: i128,
}

/// A position whose claimable XRD reaches its refill threshold.
#[derive(Debug, Clone, Copy, PartialEq)]
pub struct AutomationReadyReceipt {
    pub receipt_id: u64,
    pub claimable_xrd: i128,
    pub refill_threshold: i128,
    pub xrd_after_fee: i128,
}

/// The data of a liquidity receipt NFT.
#[derive(Debug, Clone, PartialEq)]
pub struct LiquidityReceipt {
    pub key_image_url: String,
    pub discount: i128,
    pub auto_unstake: bool,
    pub auto_refill: bool,
    pub refill_threshold: i128,
}

/// The data of a position that changes as it is filled.
#[derive(Debug, Clone, Copy, PartialEq)]
pub struct LiquidityData {
    pub xrd_liquidity_filled: i128,
    pub xrd_liquidity_available: i128,
    pub fills_to_collect: u64,
    pub last_added_epoch: u32,
}

/// A fill held for a position: either an unstake NFT or an amount of LSUs.
#[derive(Debug, Clone, Copy, PartialEq)]
pub enum UnstakeNFTOrLSU {
    UnstakeNFT(UnstakeNFTData),
    LSU(LSUData),
}

/// An unstake NFT held in the pool's vault of that NFT resource.
#[derive(Debug, Clone, Copy, PartialEq)]
pub struct UnstakeNFTData {
    pub resource_address: ResourceBytes,
    pub id: NftIdBytes,
}

/// An amount of LSUs held in the pool's vault of that LSU resource.
#[derive(Debug, Clone, Copy, PartialEq)]
pub struct LSUData {
    pub resource_address: ResourceBytes,
    pub amount: i128,
}

/// Why the pool refuses a request.
#[derive(Debug, Clone, Copy, PartialEq, Eq)]
pub enum LiquifyError {
    /// The pool is not accepting new liquidity.
    ComponentDisabled,
    /// The deposit is below the minimum liquidity.
    BelowMinimumLiquidity,
    /// The discount is not one of the supported steps.
    UnsupportedDiscount,
    /// Auto refill was asked for without auto unstake.
    AutoRefillRequiresAutoUnstake,
    /// The refill threshold is below the required minimum.
    RefillThresholdBelowMinimum,
    /// The position would stay below the minimum liquidity after an increase.
    IncreaseBelowMinimumLiquidity,
    /// The refill threshold exceeds the position's available liquidity.
    RefillThresholdExceedsAvailable,
    /// A position to withdraw has no available liquidity.
    NoLiquidityToRemove,
    /// The position does not have auto refill enabled.
    AutomationNotEnabled,
    /// The position does not have auto unstake enabled.
    AutoUnstakeRequired,
    /// At least one fill must be processed.
    NoFillsToProcess,
    /// The claimable XRD does not reach the refill threshold.
    ClaimableBelowThreshold,
    /// A fill held as LSUs cannot be cycled.
    CannotCycleLsuFills,
    /// The claimed XRD does not cover the automation fee.
    ClaimedBelowAutomationFee,
    /// An automation fee cannot be negative.
    NegativeAutomationFee,
    /// The platform fee would take a negative amount or more than was paid.
    PlatformFeeOutOfRange,
    /// The XRD vault holds less than the fills take.
    InsufficientLiquidity,
    /// A position holds more fills than its record counts.
    FillCountUnderflow,
}

} // verus!
