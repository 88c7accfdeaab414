use vstd::prelude::*;

verus! {

/// The side of an order.
#[derive(Debug, Clone, Copy, PartialEq, Eq, Structural)]
#[allow(non_camel_case_types)]
pub enum Side {
    BUY,
    SELL,
}

/// An order as a client or strategy asks for it: no id yet.
/// `price == None` makes it a market order.
#[derive(Debug, Clone, Copy, PartialEq, Eq, Structural)]
pub struct OrderRequest {
    pub price: Option<u64>,
    pub quantity: u64,
    pub side: Side,
}

/// An order together with the id the engine gave it.
#[derive(Debug, Clone, Copy, PartialEq, Eq, Structural)]
pub struct Order {
    pub id: u64,
    pub price: Option<u64>,
    pub quantity: u64,
    pub side: Side,
}

/// An order resting in the book. `quantity` is what it was accepted with,
/// `remaining` what is still open; `price` is the level it lives at.
#[derive(Debug, Clone, Copy, PartialEq, Eq, Structural)]
pub struct Resting {
    pub id: u64,
    pub price: Option<u64>,
    pub quantity: u64,
    pub ts: u64,
    pub remaining: u64,
    pub active: bool,
}

/// One execution between a taker and a maker.
#[derive(Debug, Clone, Copy, PartialEq, Eq, Structural)]
pub struct Fill {
    pub taker_id: u64,
    pub maker_id: u64,
    pub price: Option<u64>,
    pub quantity: u64,
    pub ts: u64,
}

/// Why an order reached its terminal state.
#[derive(Debug, Clone, Copy, PartialEq, Eq, Structural)]
pub enum DoneReason {
    Filled,
    Rested,
    Cancelled,
    Rejected,
}

/// The kinds of failure the engine can name.
#[derive(Debug, Clone, Copy, PartialEq, Eq, Structural)]
pub enum BookError {
    InvalidQuantity { quantity: u64 },
    OrderNotFound { id: u64 },
    NoLiquidity { side: Side },
    PriceLevelNotFound { price: u64, side: Side },
    InvalidPrice,
}

/// What the engine reports about an order.
#[derive(Debug, Clone, Copy, PartialEq, Eq, Structural)]
pub enum Event {
    Ack { id: u64, ts: u64 },
    Fill { taker_id: u64, maker_id: u64, price: u64, qty: u64, ts: u64 },
    Done { id: u64, reason: DoneReason, ts: u64 },
}

/// The events one operation produced, in order.
#[derive(Debug, Clone)]
pub struct SubmitResult {
    pub events: Vec<Event>,
}

/// The result of an engine operation that can fail.
pub type BookResult<T> = Result<T, BookError>;

impl Side {
    /// The other side of the book.
    pub open spec fn opposite(self) -> Side {
        match self {
            Side::BUY => Side::SELL,
            Side::SELL => Side::BUY,
        }
    }
}

impl BookError {
    /// A short human-readable description.
    pub fn message(&self) -> (r: String) {
        match self {
            BookError::InvalidQuantity { .. } => "invalid order quantity".to_string(),
            BookError::OrderNotFound { .. } => "order not found".to_string(),
            BookError::NoLiquidity { .. } => "no liquidity available for market order".to_string(),
            BookError::PriceLevelNotFound { .. } => "price level not found".to_string(),
            BookError::InvalidPrice => "invalid price for limit order".to_string(),
        }
    }
}

} // verus!
