//! Numbers, addresses, errors and the constants of the engine.

use vstd::prelude::*;

pub mod address;
pub mod addresses;
pub mod error;
pub mod math;
pub mod text;
pub mod tick;
pub mod uint;

pub use address::Address;
pub use error::RouterError;
pub use uint::U256;

verus! {

/// 2^96, the scale of a square-root price.
pub const Q96: u128 = 0x1_0000_0000_0000_0000_0000_0000;

/// The greatest number of hops in a route.
pub const MAX_HOPS: usize = 4;

/// The greatest number of routes in a split.
pub const MAX_SPLITS: usize = 3;

/// The liquidity of one whole token of 18 decimals.
pub const MIN_LIQUIDITY: u128 = 1_000_000_000_000_000_000;

/// The address whose number is `n`: `n` fills the last eight of the twenty
/// bytes, big end first.
pub fn address_from_u64(n: u64) -> (a: Address)
    ensures
        a@ == n,
{
    Address { hi: 0, mid: 0, lo: n }
}

} // verus!
