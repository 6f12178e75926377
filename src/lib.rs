//! An equity exchange ledger: users, stocks issued through an IPO pool,
//! holdings, resting limit orders and trades, with a continuous double
//! auction that matches incoming orders against the opposite book.
//!
//! Every state transition is all-or-nothing: a function either returns `Ok`
//! with the ledger moved to the state its contract names, or returns `Err`
//! and leaves the ledger exactly as it was.
pub mod sums;
pub mod errors;
pub mod ledger;
pub mod book;
pub mod orders;
pub mod stocks;
pub mod hash;
pub mod users;
pub mod laws;
pub mod paging;
pub mod order_queries;
pub mod quotation;
pub mod stock_queries;
pub mod favorite;
