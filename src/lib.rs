//! Cheapest-acquisition pricing for crafted items: an order-book matcher, a
//! fixed-price catalog, a recursive cost resolver over recipes with a shared
//! inventory ledger, and a profit ranker built on top of them.

pub mod client;
pub mod cost;
pub mod error;
pub mod index;
pub mod pacing;
pub mod profit;
pub mod tally;
pub mod text;
