//! Liquidity pools and the request records of the token endpoints.

use vstd::prelude::*;

verus! {

/// A two-sided liquidity pool.
#[derive(Debug)]
pub struct LiquidityPool {
    pub token_a: String,
    pub token_b: String,
    pub reserves_a: u64,
    pub reserves_b: u64,
}

impl LiquidityPool {
    /// Creates a pool for the given token pair with zero reserves.
    pub fn new(token_a: String, token_b: String) -> (r: LiquidityPool)
        ensures
            r.token_a == token_a,
            r.token_b == token_b,
            r.reserves_a == 0,
            r.reserves_b == 0,
    {
        LiquidityPool { token_a, token_b, reserves_a: 0, reserves_b: 0 }
    }

    /// Adds liquidity to both sides of the pool.
    pub fn add_liquidity(&mut self, token_a_amount: u64, token_b_amount: u64)
        requires
            old(self).reserves_a + token_a_amount <= u64::MAX,
            old(self).reserves_b + token_b_amount <= u64::MAX,
        ensures
            final(self).token_a == old(self).token_a,
            final(self).token_b == old(self).token_b,
            final(self).reserves_a == old(self).reserves_a + token_a_amount,
            final(self).reserves_b == old(self).reserves_b + token_b_amount,
    {
        self.reserves_a = self.reserves_a + token_a_amount;
        self.reserves_b = self.reserves_b + token_b_amount;
    }
}

/// A request to move tokens between two wallets.
#[derive(Debug, PartialEq)]
pub struct TransferRequest {
    pub from: String,
    pub to: String,
    pub token: String,
    pub amount: u64,
}

/// A request to convert tokens within one wallet.
#[derive(Debug, PartialEq)]
pub struct SwapRequest {
    pub address: String,
    pub from_token: String,
    pub to_token: String,
    pub amount: u64,
}

} // verus!
