//! Order-book accounting of a liquidity pool that buys liquid stake units at a discount.
mod decimal;
pub mod combined_key;
pub mod ordered_map;
pub mod sums;
pub mod discount;
pub mod types;
pub mod liquify;
pub mod positions;
pub mod matching;
pub mod unstake;
pub mod fills;
pub mod settings;
pub mod queries;
pub mod laws;

pub use decimal::ONE;

use vstd::prelude::*;

verus! {

} // verus!
