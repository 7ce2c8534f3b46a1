//! Addresses of well-known tokens on Base.

use vstd::prelude::*;
use crate::utils::address::Address;

verus! {

/// Wrapped ether, `0x4200000000000000000000000000000000000006`.
pub fn weth() -> (a: Address)
    ensures
        a@ == 0x4200_0000_0000_0000_0000_0000_0000_0000_0000_0006nat,
{
    Address { hi: 0x4200_0000, mid: 0, lo: 6 }
}

/// USD Coin, `0x833589fCD6eDb6E08f4c7C32D4f71b54bdA02913`.
pub fn usdc() -> (a: Address)
    ensures
        a@ == 0x8335_89fc_d6ed_b6e0_8f4c_7c32_d4f7_1b54_bda0_2913nat,
{
    Address { hi: 0x8335_89fc, mid: 0xd6ed_b6e0_8f4c_7c32, lo: 0xd4f7_1b54_bda0_2913 }
}

} // verus!
