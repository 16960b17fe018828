//! Bidding in contract bridge: calls and auctions checked against the laws,
//! decision tries keyed by auctions, and the deal model they are used with.

pub mod bidding;
pub mod contract;
pub mod dds;
pub mod deal;
pub mod eval;
pub mod stats;
pub mod trie;
