//! Tokens, the nodes of the pool graph.

use vstd::prelude::*;
use crate::utils::address::Address;

verus! {

/// A token: its address identifies it, the rest describes it.
#[derive(Debug, PartialEq, Eq, Hash)]
pub struct TokenNode {
    pub address: Address,
    pub symbol: String,
    pub decimals: u8,
    pub is_native: bool,
}

impl TokenNode {
    /// A token that is not the chain's native asset.
    pub fn new(address: Address, symbol: String, decimals: u8) -> (t: TokenNode)
        ensures
            t.address == address,
            t.symbol == symbol,
            t.decimals == decimals,
            !t.is_native,
    {
        TokenNode { address, symbol, decimals, is_native: false }
    }

    /// The chain's native asset, or its wrapped form.
    pub fn native(address: Address, symbol: String, decimals: u8) -> (t: TokenNode)
        ensures
            t.address == address,
            t.symbol == symbol,
            t.decimals == decimals,
            t.is_native,
    {
        TokenNode { address, symbol, decimals, is_native: true }
    }
}

impl Clone for TokenNode {
    fn clone(&self) -> (t: TokenNode)
        ensures
            t == *self,
    {
        TokenNode {
            address: self.address,
            symbol: self.symbol.clone(),
            decimals: self.decimals,
            is_native: self.is_native,
        }
    }
}

} // verus!
