//! A shared-expense ledger: it turns recorded expenses into net balances and
//! the balances into a short list of payments that settle every debt.
//!
//! - `balance` folds expenses into each participant's net balance, in fixed
//!   point; `settlement` matches debtors with creditors on those balances
//!   and rounds each payment to minor units as it is emitted;
//!   `settlement_properties` proves what holds of every settlement, and
//!   `exact_settlement` what holds when the balances are whole, even minor
//!   units that net to zero.
//! - `expense_syntax`, `amount` and `words` read what users write;
//!   `validation`, `participants`, `names` and `registry` check and prepare
//!   it; `records` rebuilds stored expenses; `listing` and `paging` help
//!   compose replies.
pub mod types;
pub mod error;
pub mod balance;
pub mod settlement;
pub mod settlement_properties;
pub mod amount;
pub mod expense_syntax;
pub mod words;
pub mod names;
pub mod validation;
pub mod participants;
pub mod registry;
pub mod records;
pub mod listing;
pub mod paging;
pub mod exact_settlement;
