//! A ledger of uniquely identified gatos with an embedded marketplace:
//! minting, transfer, listing and sale, each all-or-nothing.

pub mod balances;
pub mod hashing;
pub mod pallet;
pub mod types;

pub use balances::{Balances, NativeBalance};
pub use pallet::Pallet;
pub use types::{AccountId, Balance, BalanceError, Dna, Error, Event, Gato, Origin, MAX_OWNED};
