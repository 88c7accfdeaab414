//! A single-symbol limit order book with price-time priority, and the
//! pieces that make it recoverable after a crash: a snapshot codec and
//! replay of a write-ahead log under the order ids it recorded.
//!
//! - `engine`: the book (`engine::book::Book`), its domain types, the model
//!   its contracts are stated over (`engine::model`) and the laws proved of
//!   it (`engine::laws`).
//! - `persist`: the snapshot layout, the codec between a book and its
//!   snapshot, and restore and checkpoint logic.
//! - `market_data`: an outside venue's book, the normalisation of its wire
//!   strings, a combined view of both books, and a simple market maker.
use vstd::prelude::*;

pub mod engine;
pub mod market_data;
pub mod persist;

verus! {

} // verus!
