# Liquify

Liquify lets holders of native Radix validator LSUs unstake at once: liquidity
providers deposit XRD at a discount of their choice (0% to 5% in steps of
0.025%), and LSU sellers are paid by the best discounts first. Providers later
collect the LSUs they bought, or the unstake NFTs they became, and automated
positions can have their matured NFTs claimed and the XRD put back as
liquidity.

## Layout

- `src/` is the pool's accounting, verified with Verus: the buy list and the
  fill tree (`ordered_map`, keyed by `combined_key`), positions (`liquify`,
  `positions`), sales (`matching`, `unstake`), collecting and cycling fills
  (`fills`), read-only queries (`queries`), the owner's settings (`settings`),
  and properties that span operations (`laws`). Amounts are `i128` atto
  counts; the products and quotients of `Decimal` are those of scrypto
  (`decimal`).
- `app/` is the Scrypto blueprint around it: buckets, vaults, receipt NFTs,
  validator calls and events, plus a forwarding interface component.
- `tests/` runs the library on concrete scenarios.
