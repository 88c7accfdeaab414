use vstd::prelude::*;

verus! {

/// An `l2Book` payload: the coin, its (bids, asks) levels, and the time.
pub struct WsBook {
    pub coin: String,
    pub levels: (Vec<WsLevel>, Vec<WsLevel>),
    pub time: u64,
}

/// A websocket message: its channel and its book payload.
pub struct WsMessage {
    pub channel: String,
    pub data: WsBook,
}

/// One level as the venue sends it: price and size as decimal strings, and
/// the number of orders at it.
pub struct WsLevel {
    pub px: String,
    pub sz: String,
    pub n: u32,
}

/// The venue's spot metadata: its tokens and its trading pairs.
pub struct SpotMeta {
    pub tokens: Vec<SpotToken>,
    pub universe: Vec<SpotPair>,
}

/// One token and the number of decimals its sizes carry.
pub struct SpotToken {
    pub name: String,
    pub sz_decimals: u32,
    pub index: Option<u32>,
}

/// One trading pair: its name and the indices of its (base, quote) tokens.
pub struct SpotPair {
    pub name: String,
    pub tokens: (u32, u32),
}

} // verus!
