//! Low-level chain value types.

use vstd::prelude::*;

verus! {

/// An index to a block.
pub type BlockNumber = u32;

/// The type for looking up accounts.
pub type AccountIndex = u32;

/// Balance of an account.
pub type Balance = u128;

/// Asset ID for the generic asset module.
pub type AssetId = u32;

/// Type used for expressing a moment in time.
pub type Moment = u64;

/// A timestamp: milliseconds since the unix epoch.
pub type Timestamp = u64;

/// The outer `FeeExchange` type. It is versioned to provide flexibility for
/// future iterations while maintaining backward compatibility.
#[derive(PartialEq, Eq, Clone, Structural)]
pub enum FeeExchange {
    /// A V1 FeeExchange
    V1(FeeExchangeV1),
}

/// Signals a fee payment requiring the spot exchange. It specifies the input
/// asset ID and the maximum amount of the input asset to pay.
#[derive(PartialEq, Eq, Clone, Structural)]
pub struct FeeExchangeV1 {
    /// The asset to exchange for the network fee asset.
    pub asset_id: AssetId,
    /// The maximum amount of `asset_id` to pay, given the exchange rate.
    pub max_payment: Balance,
}

} // verus!
