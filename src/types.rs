use vstd::prelude::*;

verus! {

/// An account identity.
pub type AccountId = u64;

/// An amount of the native currency.
pub type Balance = u64;

/// The 32-byte identifier of a gato.
pub type Dna = [u8; 32];

/// The most gatos one account may hold.
pub const MAX_OWNED: usize = 100;

/// A gato: its identifier, its owner and, when listed, its sale price.
#[derive(Clone, Copy, Debug, PartialEq, Eq)]
pub struct Gato {
    pub dna: Dna,
    pub owner: AccountId,
    pub price: Option<Balance>,
}

/// What a successful call records.
#[derive(Clone, Copy, Debug, PartialEq, Eq)]
pub enum Event {
    Created { owner: AccountId },
    Transferred { from: AccountId, to: AccountId, gato_id: Dna },
    PriceSet { owner: AccountId, gato_id: Dna, new_price: Option<Balance> },
    Sold { buyer: AccountId, gato_id: Dna, price: Balance },
}

/// Why a transfer of the native currency was refused.
#[derive(Clone, Copy, Debug, PartialEq, Eq)]
pub enum BalanceError {
    /// The payer holds less than the amount.
    InsufficientFunds,
    /// The payer would be left below the existential deposit.
    WouldDestroyAccount,
    /// The payee would end up below the existential deposit.
    BelowMinimum,
    /// The payee's balance would not fit.
    Overflow,
}

/// Why a call was refused. A refused call changes nothing.
#[derive(Clone, Copy, Debug, PartialEq, Eq)]
pub enum Error {
    /// The call was not signed by an account.
    BadOrigin,
    /// The supply counter cannot grow any further.
    TooManyGatos,
    /// The identifier is already taken.
    DuplicateGato,
    /// The receiving account already holds the most gatos it may.
    TooManyOwned,
    /// No gato has this identifier.
    NoGato,
    /// Sender and receiver are the same account.
    TransferToSelf,
    /// The caller does not own the gato.
    NotOwner,
    /// The gato has no price.
    GatoNotForSale,
    /// The buyer's ceiling is below the asking price.
    MaxPriceTooLow,
    /// The payment was refused by the currency ledger.
    Balance(BalanceError),
}

/// Who sent a call.
#[derive(Clone, Copy, Debug, PartialEq, Eq)]
pub enum Origin {
    Signed(AccountId),
    Root,
    Unsigned,
}

/// The account that signed the call, or `BadOrigin`.
pub fn ensure_signed(origin: Origin) -> (r: Result<AccountId, Error>)
    ensures
        match origin {
            Origin::Signed(who) => r == Ok::<AccountId, Error>(who),
            _ => r == Err::<AccountId, Error>(Error::BadOrigin),
        },
{
    match origin {
        Origin::Signed(who) => Ok(who),
        _ => Err(Error::BadOrigin),
    }
}

} // verus!
