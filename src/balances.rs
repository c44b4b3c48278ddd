use std::collections::HashMap;
use vstd::prelude::*;

use crate::types::{AccountId, Balance, BalanceError};

verus! {

broadcast use vstd::std_specs::hash::group_hash_axioms;

/// A ledger of the native currency: a free balance per account, and an
/// existential deposit below which no payment may leave an account.
pub struct Balances {
    accounts: HashMap<AccountId, Balance>,
    existential_deposit: Balance,
}

/// The outcome of `transfer`, conditions taken in order.
pub open spec fn transfer_outcome(
    from_free: nat,
    to_free: nat,
    same: bool,
    amount: nat,
    ed: nat,
) -> Result<(), BalanceError> {
    if from_free < amount {
        Err(BalanceError::InsufficientFunds)
    } else if from_free - amount < ed {
        Err(BalanceError::WouldDestroyAccount)
    } else if !same && to_free + amount > u64::MAX {
        Err(BalanceError::Overflow)
    } else if !same && to_free + amount < ed {
        Err(BalanceError::BelowMinimum)
    } else {
        Ok(())
    }
}

/// The outcome of `mint_into`.
pub open spec fn deposit_outcome(free: nat, amount: nat, ed: nat) -> Result<(), BalanceError> {
    if free + amount > u64::MAX {
        Err(BalanceError::Overflow)
    } else if free + amount < ed {
        Err(BalanceError::BelowMinimum)
    } else {
        Ok(())
    }
}

impl Balances {
    /// The free balance of `who`; zero for an account never credited.
    pub closed spec fn free(&self, who: AccountId) -> nat {
        if self.accounts@.contains_key(who) {
            self.accounts@[who] as nat
        } else {
            0
        }
    }

    pub closed spec fn spec_existential_deposit(&self) -> nat {
        self.existential_deposit as nat
    }

    /// An empty ledger with the given existential deposit.
    pub fn new(existential_deposit: Balance) -> (r: Self)
        ensures
            forall|w: AccountId| r.free(w) == 0,
            r.spec_existential_deposit() == existential_deposit,
    {
        Balances { accounts: HashMap::new(), existential_deposit }
    }

    /// The existential deposit.
    pub fn existential_deposit(&self) -> (r: Balance)
        ensures
            r == self.spec_existential_deposit(),
    {
        self.existential_deposit
    }

    /// The free balance of `who`.
    pub fn balance(&self, who: AccountId) -> (r: Balance)
        ensures
            r == self.free(who),
    {
        match self.accounts.get(&who) {
            Some(b) => *b,
            None => 0,
        }
    }

    /// Credits `amount` to `who`, creating the account if need be.
    pub fn mint_into(&mut self, who: AccountId, amount: Balance) -> (r: Result<(), BalanceError>)
        ensures
            r == deposit_outcome(old(self).free(who), amount as nat, old(self).spec_existential_deposit()),
            final(self).spec_existential_deposit() == old(self).spec_existential_deposit(),
            r is Ok ==> final(self).free(who) == old(self).free(who) + amount,
            r is Ok ==> forall|w: AccountId| w != who ==> final(self).free(w) == old(self).free(w),
            r is Err ==> *final(self) == *old(self),
    {
        let free = self.balance(who);
        if amount > u64::MAX - free {
            return Err(BalanceError::Overflow);
        }
        if free + amount < self.existential_deposit {
            return Err(BalanceError::BelowMinimum);
        }
        self.accounts.insert(who, free + amount);
        Ok(())
    }

    /// What `transfer` would answer, without moving anything.
    pub fn can_transfer(&self, from: AccountId, to: AccountId, amount: Balance) -> (r: Result<
        (),
        BalanceError,
    >)
        ensures
            r == transfer_outcome(
                self.free(from),
                self.free(to),
                from == to,
                amount as nat,
                self.spec_existential_deposit(),
            ),
    {
        let from_free = self.balance(from);
        let to_free = self.balance(to);
        if from_free < amount {
            return Err(BalanceError::InsufficientFunds);
        }
        if from_free - amount < self.existential_deposit {
            return Err(BalanceError::WouldDestroyAccount);
        }
        if from == to {
            return Ok(());
        }
        if amount > u64::MAX - to_free {
            return Err(BalanceError::Overflow);
        }
        if to_free + amount < self.existential_deposit {
            return Err(BalanceError::BelowMinimum);
        }
        Ok(())
    }

    /// Moves exactly `amount` from `from` to `to`, keeping `from` alive.
    pub fn transfer(&mut self, from: AccountId, to: AccountId, amount: Balance) -> (r: Result<
        (),
        BalanceError,
    >)
        ensures
            r == transfer_outcome(
                old(self).free(from),
                old(self).free(to),
                from == to,
                amount as nat,
                old(self).spec_existential_deposit(),
            ),
            r is Err ==> *final(self) == *old(self),
            r is Ok && from == to ==> *final(self) == *old(self),
            r is Ok && from != to ==> {
                &&& final(self).free(from) == old(self).free(from) - amount
                &&& final(self).free(to) == old(self).free(to) + amount
            },
            final(self).spec_existential_deposit() == old(self).spec_existential_deposit(),
            forall|w: AccountId| w != from && w != to ==> final(self).free(w) == old(self).free(w),
    {
        if let Err(e) = self.can_transfer(from, to, amount) {
            return Err(e);
        }
        if from == to {
            return Ok(());
        }
        let from_free = self.balance(from);
        let to_free = self.balance(to);
        self.accounts.insert(from, from_free - amount);
        self.accounts.insert(to, to_free + amount);
        Ok(())
    }
}

/// A currency ledger that the marketplace pays through: what it holds, what
/// a payment would answer, and the payment itself.
pub trait NativeBalance: Sized {
    /// The free balance of `who`.
    spec fn balance_of(&self, who: AccountId) -> nat;

    /// What a payment of `amount` from `from` to `to` answers.
    spec fn debit_credit_outcome(&self, from: AccountId, to: AccountId, amount: Balance) -> Result<
        (),
        BalanceError,
    >;

    /// What `debit_credit` would answer, without moving anything.
    fn can_debit_credit(&self, from: AccountId, to: AccountId, amount: Balance) -> (r: Result<
        (),
        BalanceError,
    >)
        ensures
            r == self.debit_credit_outcome(from, to, amount),
    ;

    /// Moves exactly `amount` from `from` to `to`; a refusal moves nothing.
    fn debit_credit(&mut self, from: AccountId, to: AccountId, amount: Balance) -> (r: Result<
        (),
        BalanceError,
    >)
        ensures
            r == old(self).debit_credit_outcome(from, to, amount),
            r is Err ==> *final(self) == *old(self),
            r is Ok && from == to ==> *final(self) == *old(self),
            r is Ok && from != to ==> {
                &&& final(self).balance_of(from) == old(self).balance_of(from) - amount
                &&& final(self).balance_of(to) == old(self).balance_of(to) + amount
            },
            forall|w: AccountId|
                w != from && w != to ==> #[trigger] final(self).balance_of(w) == old(
                    self,
                ).balance_of(w),
    ;
}

impl NativeBalance for Balances {
    open spec fn balance_of(&self, who: AccountId) -> nat {
        self.free(who)
    }

    open spec fn debit_credit_outcome(&self, from: AccountId, to: AccountId, amount: Balance) -> Result<
        (),
        BalanceError,
    > {
        transfer_outcome(
            self.free(from),
            self.free(to),
            from == to,
            amount as nat,
            self.spec_existential_deposit(),
        )
    }

    fn can_debit_credit(&self, from: AccountId, to: AccountId, amount: Balance) -> (r: Result<
        (),
        BalanceError,
    >) {
        self.can_transfer(from, to, amount)
    }

    fn debit_credit(&mut self, from: AccountId, to: AccountId, amount: Balance) -> (r: Result<
        (),
        BalanceError,
    >) {
        self.transfer(from, to, amount)
    }
}

} // verus!
