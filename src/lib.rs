//! A binary-outcome prediction market with verified fund accounting.
//!
//! Participants deposit a reference currency into one of the two outcomes of a
//! market and receive position tokens one for one. Once the market is asserted,
//! holders of the winning position redeem them for the same amount of currency.
//! A second settlement policy, where winners also share the losing pool in
//! proportion to their stake, is offered by [`vote::VoteContract`].
//! [`listing`] assembles markets and their bet options for display.

mod error;
pub mod listing;
pub mod market;
pub mod market_id;
pub mod token;
pub mod vote;

pub use error::Error;
pub use token::Token;
