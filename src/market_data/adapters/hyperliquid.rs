use vstd::prelude::*;

use crate::market_data::adapters::hyperliquid_types::{SpotMeta, SpotPair, SpotToken, WsLevel};
use crate::market_data::normaliser::Normaliser;

verus! {

/// Where the adapter connects, and for which coin and pair.
pub struct HyperliquidAdapter {
    pub coin: String,
    pub pair: String,
    pub info_url: String,
    pub ws_url: String,
}

/// The size decimals used when the pair, or its base token, is not listed.
pub const DEFAULT_SZ_DECIMALS: u32 = 6;

/// The size decimals of `pair`: those of the base token of the first pair in
/// `universe` with that name whose base token index is listed in `tokens`;
/// `DEFAULT_SZ_DECIMALS` when there is none.
pub open spec fn pair_decimals(universe: Seq<SpotPair>, tokens: Seq<SpotToken>, pair: Seq<char>) -> u32
    decreases universe.len(),
{
    if universe.len() == 0 {
        DEFAULT_SZ_DECIMALS
    } else if universe[0].name@ == pair && (universe[0].tokens.0 as int) < tokens.len() {
        tokens[universe[0].tokens.0 as int].sz_decimals
    } else {
        pair_decimals(universe.drop_first(), tokens, pair)
    }
}

impl HyperliquidAdapter {
    /// An adapter for `coin`, whose size decimals are looked up under `pair`,
    /// on the venue's public endpoints.
    pub fn new(coin: &str, pair: &str) -> (r: HyperliquidAdapter)
        ensures
            r.coin@ == coin@,
            r.pair@ == pair@,
            r.info_url@ == "https://api.hyperliquid.xyz/info"@,
            r.ws_url@ == "wss://api.hyperliquid.xyz/ws"@,
    {
        HyperliquidAdapter {
            coin: coin.to_owned(),
            pair: pair.to_owned(),
            info_url: "https://api.hyperliquid.xyz/info".to_owned(),
            ws_url: "wss://api.hyperliquid.xyz/ws".to_owned(),
        }
    }

    /// The size decimals of this adapter's pair in `meta`.
    pub fn sz_decimals_for_pair(&self, meta: &SpotMeta) -> (r: u32)
        ensures
            r == pair_decimals(meta.universe@, meta.tokens@, self.pair@),
    {
        let mut i: usize = 0;
        proof {
            assert(meta.universe@.skip(0) =~= meta.universe@);
        }
        while i < meta.universe.len()
            invariant
                i <= meta.universe@.len(),
                pair_decimals(meta.universe@, meta.tokens@, self.pair@) == pair_decimals(
                    meta.universe@.skip(i as int),
                    meta.tokens@,
                    self.pair@,
                ),
            decreases meta.universe@.len() - i,
        {
            let p = &meta.universe[i];
            proof {
                assert(meta.universe@.skip(i as int)[0] == *p);
                assert(meta.universe@.skip(i as int).drop_first() =~= meta.universe@.skip(i + 1));
            }
            if p.name == self.pair {
                let base = p.tokens.0 as usize;
                if base < meta.tokens.len() {
                    return meta.tokens[base].sz_decimals;
                }
            }
            i = i + 1;
        }
        DEFAULT_SZ_DECIMALS
    }

    /// The levels of one side in integer (ticks, lots), in their order.
    pub fn norm_side(&self, norm: &Normaliser, side: &[WsLevel]) -> (r: Vec<(i64, u64)>)
        ensures
            r@.len() == side@.len(),
            forall|i: int|
                0 <= i < side@.len() ==> #[trigger] r@[i] == (
                    norm.ticks_of(vstd::utf8::encode_utf8(side@[i].px@)),
                    norm.lots_of(vstd::utf8::encode_utf8(side@[i].sz@)),
                ),
    {
        let mut out: Vec<(i64, u64)> = Vec::new();
        let mut i: usize = 0;
        while i < side.len()
            invariant
                i <= side@.len(),
                out@.len() == i,
                forall|j: int|
                    0 <= j < i ==> #[trigger] out@[j] == (
                        norm.ticks_of(vstd::utf8::encode_utf8(side@[j].px@)),
                        norm.lots_of(vstd::utf8::encode_utf8(side@[j].sz@)),
                    ),
            decreases side@.len() - i,
        {
            let lvl = &side[i];
            let p = norm.price_to_ticks(lvl.px.as_str());
            let q = norm.size_to_lots(lvl.sz.as_str());
            out.push((p, q));
            i = i + 1;
        }
        out
    }
}

} // verus!
