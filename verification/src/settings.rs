//! The owner's settings and the platform fees.
use vstd::prelude::*;
use crate::liquify::Liquify;
use crate::types::LiquifyError;

verus! {

impl Liquify {
    /// Empties the vault of platform fees and returns what it held.
    pub fn collect_platform_fees(&mut self) -> (r: i128)
        requires
            old(self).wf(),
        ensures
            final(self).wf(),
            r == old(self).fee_vault,
            *final(self) == (Liquify { fee_vault: 0, ..*old(self) }),
    {
        let fees = self.fee_vault;
        self.fee_vault = 0;
        fees
    }

    /// Lets the pool accept new liquidity, or stops it.
    pub fn set_component_status(&mut self, status: bool)
        requires
            old(self).wf(),
        ensures
            final(self).wf(),
            *final(self) == (Liquify { component_status: status, ..*old(self) }),
    {
        self.component_status = status;
    }

    /// Sets the platform fee, a fraction of the XRD paid to sellers.
    pub fn set_platform_fee(&mut self, fee: i128)
        requires
            old(self).wf(),
        ensures
            final(self).wf(),
            *final(self) == (Liquify { platform_fee: fee, ..*old(self) }),
    {
        self.platform_fee = fee;
    }

    /// Sets the XRD paid to whoever cycles a position; it cannot be negative.
    pub fn set_automation_fee(&mut self, new_fee: i128) -> (r: Result<(), LiquifyError>)
        requires
            old(self).wf(),
        ensures
            final(self).wf(),
            new_fee < 0 ==> r == Err::<(), LiquifyError>(LiquifyError::NegativeAutomationFee) && *final(self) == *old(self),
            new_fee >= 0 ==> r is Ok && *final(self) == (Liquify { automation_fee: new_fee, ..*old(self) }),
    {
        if new_fee < 0 {
            return Err(LiquifyError::NegativeAutomationFee);
        }
        self.automation_fee = new_fee;
        Ok(())
    }

    /// Sets the least XRD a position can be opened or increased to.
    pub fn set_minimum_liquidity(&mut self, min: i128)
        requires
            old(self).wf(),
        ensures
            final(self).wf(),
            *final(self) == (Liquify { minimum_liquidity: min, ..*old(self) }),
    {
        self.minimum_liquidity = min;
    }

    /// Sets the least refill threshold that a new automated position can have.
    pub fn set_minimum_refill_threshold(&mut self, min: i128)
        requires
            old(self).wf(),
        ensures
            final(self).wf(),
            *final(self) == (Liquify { minimum_refill_threshold: min, ..*old(self) }),
    {
        self.minimum_refill_threshold = min;
    }

    /// Sets the XRD value under which an order is small: small orders are
    /// not sold to positions with auto unstake.
    pub fn set_small_order_threshold(&mut self, threshold: i128)
        requires
            old(self).wf(),
        ensures
            final(self).wf(),
            *final(self) == (Liquify { small_order_threshold: threshold, ..*old(self) }),
    {
        self.small_order_threshold = threshold;
    }

    /// Sets the image of the receipts of new positions.
    pub fn set_receipt_image_url(&mut self, url: String)
        requires
            old(self).wf(),
        ensures
            final(self).wf(),
            *final(self) == (Liquify { receipt_image_url: url, ..*old(self) }),
    {
        self.receipt_image_url = url;
    }
}

} // verus!
