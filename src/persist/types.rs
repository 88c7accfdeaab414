use vstd::prelude::*;

use crate::engine::types::Side;

verus! {

/// Failures of persistence and recovery, by kind.
#[derive(Debug, Clone, PartialEq, Eq)]
pub enum PersistanceError {
    IoFailure,
    SerializationFailure,
    FormatMismatch,
    CorruptWalRecord,
    NotFound,
    Other(String),
}

impl PersistanceError {
    /// A short human-readable description.
    pub fn message(&self) -> (r: String) {
        match self {
            PersistanceError::IoFailure => "I/O failure".to_string(),
            PersistanceError::SerializationFailure => "Serialization error".to_string(),
            PersistanceError::FormatMismatch => "Format mismatch".to_string(),
            PersistanceError::CorruptWalRecord => "Corrupt WAL record".to_string(),
            PersistanceError::NotFound => "Not found".to_string(),
            PersistanceError::Other(msg) => msg.clone(),
        }
    }
}

/// The result of a persistence or recovery step.
pub type PersistResult<T> = Result<T, PersistanceError>;

/// The snapshot layout version this library writes and reads.
pub const SNAPSHOT_SCHEMA_VERSION: u32 = 1;

/// The persisted state of a book: each side as its price levels in priority
/// order, each level with its orders in time priority, the id allocator,
/// and the highest write-ahead-log record id the state reflects.
#[derive(Debug, Clone)]
pub struct SnapshotData {
    pub version: u32,
    pub bid_side: Vec<SnapshotLevel>,
    pub ask_side: Vec<SnapshotLevel>,
    pub next_order_id: u64,
    pub wal_high_watermark: i64,
}

/// One persisted price level.
#[derive(Debug, Clone)]
pub struct SnapshotLevel {
    pub price: u64,
    pub orders: Vec<SnapshotResting>,
}

/// One persisted resting order; its price is that of its level.
#[derive(Debug, Clone, Copy, PartialEq, Eq, Structural)]
pub struct SnapshotResting {
    pub id: u64,
    pub quantity: u64,
    pub ts: u64,
    pub remaining: u64,
    pub active: bool,
}

/// A state-changing operation as the write-ahead log records it, with the
/// order id it had.
#[derive(Debug, Clone, Copy, PartialEq, Eq, Structural)]
pub enum WalOp {
    LimitOrderSubmitted { order_id: u64, side: Side, price: u64, quantity: u64 },
    MarketOrderSubmitted { order_id: u64, side: Side, quantity: u64 },
    OrderCancelled { order_id: u64 },
}

} // verus!
