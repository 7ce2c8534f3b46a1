//! Contract addresses by chain.

use vstd::prelude::*;
use crate::utils::text::text_eq;

verus! {

/// The chain id of Base mainnet.
pub const BASE_MAINNET: u64 = 8453;

/// The chain id of Base Sepolia.
pub const BASE_TESTNET: u64 = 84532;

/// The addresses of the exchange's contracts on one chain, as `0x` text.
#[derive(Clone, Copy, Debug)]
pub struct ContractAddresses {
    /// The pool manager, the one contract that holds every pool.
    pub pool_manager: &'static str,
    /// The swap router, which executes swaps through pools.
    pub swap_router: &'static str,
    /// The position manager, which holds the liquidity positions.
    pub position_manager: &'static str,
    /// The quoter, which prices swaps without executing them.
    pub quoter: &'static str,
}

/// The text of the zero address.
pub open spec fn zero_address_text() -> Seq<char> {
    "0x0000000000000000000000000000000000000000"@
}

/// Which of the four addresses is the first that is not set, if any.
pub open spec fn first_unset(c: ContractAddresses) -> Option<Seq<char>> {
    if c.pool_manager@ == zero_address_text() {
        Some("PoolManager address not set"@)
    } else if c.swap_router@ == zero_address_text() {
        Some("SwapRouter address not set"@)
    } else if c.position_manager@ == zero_address_text() {
        Some("PositionManager address not set"@)
    } else if c.quoter@ == zero_address_text() {
        Some("Quoter address not set"@)
    } else {
        None
    }
}

/// The addresses on Base mainnet and, for now, on its test network.
pub open spec fn base_contracts(c: ContractAddresses) -> bool {
    &&& c.pool_manager@ == "0x91B9463d0e4d99BB2D922cba2C9D4cd13c9a7C05"@
    &&& c.swap_router@ == "0xFf438e2d528F55fD1141382D1eB436201552d1A5"@
    &&& c.position_manager@ == "0xCf31fbdBD7A44ba1bCF99642E64a1d0B56a372bA"@
    &&& c.quoter@ == "0x3e3D0d2cC349F42825B5cF58fd34d3bDFE25404b"@
}

impl ContractAddresses {
    /// The contracts on Base mainnet.
    pub fn base_mainnet() -> (c: ContractAddresses)
        ensures
            base_contracts(c),
    {
        ContractAddresses {
            pool_manager: "0x91B9463d0e4d99BB2D922cba2C9D4cd13c9a7C05",
            swap_router: "0xFf438e2d528F55fD1141382D1eB436201552d1A5",
            position_manager: "0xCf31fbdBD7A44ba1bCF99642E64a1d0B56a372bA",
            quoter: "0x3e3D0d2cC349F42825B5cF58fd34d3bDFE25404b",
        }
    }

    /// The contracts on the Base test network.
    pub fn base_testnet() -> (c: ContractAddresses)
        ensures
            base_contracts(c),
    {
        ContractAddresses {
            pool_manager: "0x91B9463d0e4d99BB2D922cba2C9D4cd13c9a7C05",
            swap_router: "0xFf438e2d528F55fD1141382D1eB436201552d1A5",
            position_manager: "0xCf31fbdBD7A44ba1bCF99642E64a1d0B56a372bA",
            quoter: "0x3e3D0d2cC349F42825B5cF58fd34d3bDFE25404b",
        }
    }

    /// The contracts of a chain: Base mainnet is 8453, its test network 84532;
    /// no other chain is known.
    pub fn for_chain(chain_id: u64) -> (r: Option<ContractAddresses>)
        ensures
            r is Some <==> chain_id == BASE_MAINNET || chain_id == BASE_TESTNET,
            r is Some ==> base_contracts(r->0),
    {
        if chain_id == BASE_MAINNET {
            Some(Self::base_mainnet())
        } else if chain_id == BASE_TESTNET {
            Some(Self::base_testnet())
        } else {
            None
        }
    }

    /// Checks that no address is the zero address, and names the first that is.
    pub fn validate(&self) -> (r: Result<(), String>)
        ensures
            r is Ok <==> first_unset(*self) is None,
            r is Err ==> first_unset(*self) == Some(r->Err_0@),
    {
        let zero_address = "0x0000000000000000000000000000000000000000";
        if text_eq(self.pool_manager, zero_address) {
            return Err("PoolManager address not set".to_owned());
        }
        if text_eq(self.swap_router, zero_address) {
            return Err("SwapRouter address not set".to_owned());
        }
        if text_eq(self.position_manager, zero_address) {
            return Err("PositionManager address not set".to_owned());
        }
        if text_eq(self.quoter, zero_address) {
            return Err("Quoter address not set".to_owned());
        }
        Ok(())
    }
}

impl Default for ContractAddresses {
    fn default() -> (c: ContractAddresses)
        ensures
            base_contracts(c),
    {
        Self::base_mainnet()
    }
}

} // verus!
