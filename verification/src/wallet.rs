//! Wallets: an address, a private key reference, and a token balance book.

use vstd::prelude::*;

use crate::balances::{lookup_balance, set_balance, spec_balance, spec_balance_or_zero};

verus! {

/// A wallet holding token balances.
#[derive(Debug)]
pub struct Wallet {
    pub address: String,
    pub private_key: String,
    pub balances: Vec<(String, u64)>,
}

impl Wallet {
    /// Creates a wallet around the provided private key, with a fresh
    /// random address and no balances.
    pub fn new(private_key: String) -> (r: Wallet)
        ensures
            r.private_key == private_key,
            r.address@.len() == 36,
            r.balances@ == Seq::<(String, u64)>::empty(),
    {
        let r = Wallet {
            address: crate::crypto::fresh_uuid_string(),
            private_key,
            balances: Vec::new(),
        };
        proof {
            assert(r.balances@ =~= Seq::<(String, u64)>::empty());
        }
        r
    }

    /// The balance held for a token, if an entry exists.
    pub fn balance_of(&self, token: &String) -> (r: Option<u64>)
        ensures
            r == spec_balance(self.balances@, token@),
    {
        lookup_balance(&self.balances, token)
    }

    /// Adjusts a token balance by a signed amount. The entry is created at
    /// zero when absent; the adjustment is applied only when the result
    /// would not be negative, and is skipped otherwise.
    pub fn update_balances(&mut self, token: &str, amount: i64)
        requires
            spec_balance_or_zero(old(self).balances@, token@) <= i64::MAX as u64,
            spec_balance_or_zero(old(self).balances@, token@) + amount <= i64::MAX,
        ensures
            final(self).address == old(self).address,
            final(self).private_key == old(self).private_key,
            forall|q: Seq<char>|
                spec_balance(final(self).balances@, q) == if q == token@ {
                    let b = spec_balance_or_zero(old(self).balances@, token@) as int;
                    if b + amount >= 0 {
                        Some((b + amount) as u64)
                    } else {
                        Some(b as u64)
                    }
                } else {
                    spec_balance(old(self).balances@, q)
                },
    {
        let key = token.to_owned();
        let b: u64 = match lookup_balance(&self.balances, &key) {
            Some(x) => x,
            None => {
                set_balance(&mut self.balances, &key, 0);
                0
            },
        };
        let bi = b as i64;
        if amount > 0 || bi + amount >= 0 {
            set_balance(&mut self.balances, &key, (bi + amount) as u64);
        } else {
            set_balance(&mut self.balances, &key, b);
        }
    }

    /// Removes `amount` of `token` when the balance suffices, reporting
    /// whether the withdrawal happened.
    pub fn withdraw(&mut self, token: &String, amount: u64) -> (r: bool)
        ensures
            final(self).address == old(self).address,
            final(self).private_key == old(self).private_key,
            r == (spec_balance_or_zero(old(self).balances@, token@) >= amount),
            !r ==> *final(self) == *old(self),
            r ==> forall|q: Seq<char>|
                spec_balance(final(self).balances@, q) == if q == token@ {
                    Some((spec_balance_or_zero(old(self).balances@, token@) - amount) as u64)
                } else {
                    spec_balance(old(self).balances@, q)
                },
    {
        let b = match lookup_balance(&self.balances, token) {
            Some(x) => x,
            None => 0,
        };
        if b >= amount {
            set_balance(&mut self.balances, token, b - amount);
            true
        } else {
            false
        }
    }

    /// Adds `amount` of `token` to the wallet, creating the entry at the
    /// amount when absent.
    pub fn deposit(&mut self, token: &String, amount: u64)
        requires
            spec_balance_or_zero(old(self).balances@, token@) + amount <= u64::MAX,
        ensures
            final(self).address == old(self).address,
            final(self).private_key == old(self).private_key,
            forall|q: Seq<char>|
                spec_balance(final(self).balances@, q) == if q == token@ {
                    Some((spec_balance_or_zero(old(self).balances@, token@) + amount) as u64)
                } else {
                    spec_balance(old(self).balances@, q)
                },
    {
        let b = match lookup_balance(&self.balances, token) {
            Some(x) => x,
            None => 0,
        };
        set_balance(&mut self.balances, token, b + amount);
    }

    /// Converts `amount` from one token to another within this wallet,
    /// reporting whether the swap happened; without enough of the source
    /// token nothing changes.
    pub fn swap(&mut self, from_token: &String, to_token: &String, amount: u64) -> (r: bool)
        requires
            from_token@ != to_token@ ==> spec_balance_or_zero(old(self).balances@, to_token@)
                + amount <= u64::MAX,
        ensures
            final(self).address == old(self).address,
            final(self).private_key == old(self).private_key,
            r == (spec_balance_or_zero(old(self).balances@, from_token@) >= amount),
            !r ==> *final(self) == *old(self),
            r ==> forall|q: Seq<char>|
                spec_balance(final(self).balances@, q) == {
                    let bf = spec_balance_or_zero(old(self).balances@, from_token@);
                    if from_token@ == to_token@ {
                        if q == from_token@ {
                            Some(bf)
                        } else {
                            spec_balance(old(self).balances@, q)
                        }
                    } else if q == from_token@ {
                        Some((bf - amount) as u64)
                    } else if q == to_token@ {
                        Some((spec_balance_or_zero(old(self).balances@, to_token@) + amount)
                            as u64)
                    } else {
                        spec_balance(old(self).balances@, q)
                    }
                },
    {
        let bf = match lookup_balance(&self.balances, from_token) {
            Some(x) => x,
            None => 0,
        };
        if bf < amount {
            return false;
        }
        set_balance(&mut self.balances, from_token, bf - amount);
        let bt = match lookup_balance(&self.balances, to_token) {
            Some(x) => x,
            None => 0,
        };
        set_balance(&mut self.balances, to_token, bt + amount);
        true
    }
}

} // verus!
