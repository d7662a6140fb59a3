//! Ledgers behind an event-attendance platform: events and tickets,
//! attendance collectibles, and a reward-token balance book.
//!
//! Each ledger is a value that holds its entries in keyed tables. A call
//! names the principals that have authorized it and, where a record is
//! stamped, the time; it either changes the ledger as its contract says or
//! is refused with a [`error::LedgerError`] and changes nothing. What holds
//! of a ledger whatever calls are made is stated and proved in the `*_laws`
//! modules.
//!
//! A ledger can be rebuilt from entries that were persisted, with its
//! `restore_*` functions. They put entries back as given: what holds of a
//! ledger at all times holds of a rebuilt one as far as it held of the
//! ledger whose entries were kept. Calls work on any ledger.

pub mod error;
pub mod principal;
pub mod table;
mod sealed;
pub mod identity;
pub mod relation;
pub mod event_manager;
pub mod event_laws;
pub mod nft_minter;
pub mod nft_laws;
pub mod token_rewards;
pub mod reward_laws;
pub mod kaizen_event;
