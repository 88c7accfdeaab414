pub mod hyperliquid;
pub mod hyperliquid_types;

use vstd::prelude::*;

verus! {

/// What a venue adapter reports.
pub enum MarketEvent {
    /// The venue's whole book at one moment, already in integer ticks and lots.
    Snapshot { coin: String, bids: Vec<(i64, u64)>, asks: Vec<(i64, u64)>, ts_ms: u64 },
}

} // verus!
