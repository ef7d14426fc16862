//! A fungible token: a named supply with per-account balances.

use vstd::prelude::*;

use crate::balances::{lookup_balance, set_balance, spec_balance, spec_balance_or_zero};
use crate::errors::TokenError;

verus! {

/// A fungible token and its per-account balance book.
#[derive(Debug)]
pub struct Token {
    pub id: String,
    pub name: String,
    pub symbol: String,
    pub total_supply: u64,
    pub balances: Vec<(String, u64)>,
    pub decimals: u8,
}

impl Token {
    /// Creates a token with a fresh random id and an empty balance book.
    pub fn new(name: String, symbol: String, total_supply: u64, decimals: u8) -> (r: Token)
        ensures
            r.name == name,
            r.symbol == symbol,
            r.total_supply == total_supply,
            r.decimals == decimals,
            r.id@.len() == 36,
            r.balances@ == Seq::<(String, u64)>::empty(),
    {
        let r = Token {
            id: crate::crypto::fresh_uuid_string(),
            name,
            symbol,
            total_supply,
            balances: Vec::new(),
            decimals,
        };
        proof {
            assert(r.balances@ =~= Seq::<(String, u64)>::empty());
        }
        r
    }

    /// Moves `amount` from one account to another. Fails with
    /// `AccountNotFound` when the sender holds no entry and with
    /// `InsufficientBalance` when the sender's balance is below `amount`;
    /// on failure nothing changes.
    pub fn transfer(&mut self, from: String, to: String, amount: u64) -> (r: Result<
        (),
        TokenError,
    >)
        requires
            from@ != to@ ==> spec_balance_or_zero(old(self).balances@, to@) + amount
                <= u64::MAX,
        ensures
            final(self).id == old(self).id,
            final(self).name == old(self).name,
            final(self).symbol == old(self).symbol,
            final(self).total_supply == old(self).total_supply,
            final(self).decimals == old(self).decimals,
            r is Ok <==> (spec_balance(old(self).balances@, from@) matches Some(b) && b
                >= amount),
            r == Err::<(), TokenError>(TokenError::AccountNotFound) <==> spec_balance(
                old(self).balances@,
                from@,
            ) is None,
            r is Err ==> *final(self) == *old(self),
            r is Ok ==> forall|q: Seq<char>|
                spec_balance(final(self).balances@, q) == {
                    let bf = spec_balance_or_zero(old(self).balances@, from@);
                    if from@ == to@ {
                        if q == from@ {
                            Some(bf)
                        } else {
                            spec_balance(old(self).balances@, q)
                        }
                    } else if q == from@ {
                        Some((bf - amount) as u64)
                    } else if q == to@ {
                        Some((spec_balance_or_zero(old(self).balances@, to@) + amount) as u64)
                    } else {
                        spec_balance(old(self).balances@, q)
                    }
                },
    {
        let bf = match lookup_balance(&self.balances, &from) {
            None => {
                return Err(TokenError::AccountNotFound);
            },
            Some(b) => b,
        };
        if bf < amount {
            return Err(TokenError::InsufficientBalance);
        }
        set_balance(&mut self.balances, &from, bf - amount);
        let bt = match lookup_balance(&self.balances, &to) {
            Some(b) => b,
            None => 0,
        };
        set_balance(&mut self.balances, &to, bt + amount);
        Ok(())
    }

    /// Mints `amount` new units to an account, growing the total supply.
    pub fn mint(&mut self, to: String, amount: u64) -> (r: Result<(), TokenError>)
        requires
            old(self).total_supply + amount <= u64::MAX,
            spec_balance_or_zero(old(self).balances@, to@) + amount <= u64::MAX,
        ensures
            r is Ok,
            final(self).id == old(self).id,
            final(self).name == old(self).name,
            final(self).symbol == old(self).symbol,
            final(self).decimals == old(self).decimals,
            final(self).total_supply == old(self).total_supply + amount,
            forall|q: Seq<char>|
                spec_balance(final(self).balances@, q) == if q == to@ {
                    Some((spec_balance_or_zero(old(self).balances@, to@) + amount) as u64)
                } else {
                    spec_balance(old(self).balances@, q)
                },
    {
        self.total_supply = self.total_supply + amount;
        let bt = match lookup_balance(&self.balances, &to) {
            Some(b) => b,
            None => 0,
        };
        set_balance(&mut self.balances, &to, bt + amount);
        Ok(())
    }

    /// Burns `amount` units from an account, shrinking the total supply.
    /// Fails with `AccountNotFound` when the account holds no entry and
    /// with `InsufficientBalance` when its balance is below `amount`; on
    /// failure nothing changes.
    pub fn burn(&mut self, from: String, amount: u64) -> (r: Result<(), TokenError>)
        requires
            (spec_balance(old(self).balances@, from@) matches Some(b) && b >= amount)
                ==> amount <= old(self).total_supply,
        ensures
            final(self).id == old(self).id,
            final(self).name == old(self).name,
            final(self).symbol == old(self).symbol,
            final(self).decimals == old(self).decimals,
            r is Ok <==> (spec_balance(old(self).balances@, from@) matches Some(b) && b
                >= amount),
            r == Err::<(), TokenError>(TokenError::AccountNotFound) <==> spec_balance(
                old(self).balances@,
                from@,
            ) is None,
            r is Err ==> *final(self) == *old(self),
            r is Ok ==> final(self).total_supply == old(self).total_supply - amount,
            r is Ok ==> forall|q: Seq<char>|
                spec_balance(final(self).balances@, q) == if q == from@ {
                    Some((spec_balance_or_zero(old(self).balances@, from@) - amount) as u64)
                } else {
                    spec_balance(old(self).balances@, q)
                },
    {
        let bf = match lookup_balance(&self.balances, &from) {
            None => {
                return Err(TokenError::AccountNotFound);
            },
            Some(b) => b,
        };
        if bf < amount {
            return Err(TokenError::InsufficientBalance);
        }
        set_balance(&mut self.balances, &from, bf - amount);
        self.total_supply = self.total_supply - amount;
        Ok(())
    }
}

} // verus!
