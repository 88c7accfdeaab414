use lobx_rs::engine::book::Book;
use lobx_rs::engine::types::{OrderRequest, Side};
use lobx_rs::market_data::adapters::hyperliquid::HyperliquidAdapter;
use lobx_rs::market_data::adapters::hyperliquid_types::{SpotMeta, SpotPair, SpotToken, WsLevel};
use lobx_rs::market_data::external_book::ExternalBook;
use lobx_rs::market_data::normaliser::Normaliser;
use lobx_rs::market_data::unified_book::UnifiedBook;

#[test]
fn normaliser_scales() {
    assert_eq!(Normaliser::new(1_000_000, 3).size_scale, 1000);
    assert_eq!(Normaliser::new(1_000_000, 0).size_scale, 1);
    assert_eq!(Normaliser::new(1_000_000, 25).size_scale, u64::MAX);
    assert_eq!(Normaliser::new(7, 2).price_scale, 7);
}

#[test]
fn price_text_to_ticks() {
    let n = Normaliser::new(1_000_000, 3);
    assert_eq!(n.price_to_ticks("1234.56"), 1_234_560_000);
    assert_eq!(n.price_to_ticks("1234"), 1_234_000_000);
    assert_eq!(n.price_to_ticks("0.1234567"), 123_456);
    assert_eq!(n.price_to_ticks("1."), 1_000_000);
    assert_eq!(n.price_to_ticks("+2.5"), 2_500_000);
    assert_eq!(n.price_to_ticks("-1.5"), -500_000);
    assert_eq!(n.price_to_ticks("abc"), 0);
    assert_eq!(n.price_to_ticks("x.25"), 250_000);
    assert_eq!(n.price_to_ticks("99999999999999999999"), 0);
}

#[test]
fn price_ticks_saturate() {
    let n = Normaliser::new(1_000_000, 3);
    assert_eq!(n.price_to_ticks("9223372036854775807"), i64::MAX);
    assert_eq!(n.price_to_ticks("-9223372036854775808"), i64::MIN);
}

#[test]
fn size_text_to_lots() {
    let n = Normaliser::new(1_000_000, 3);
    assert_eq!(n.size_to_lots("0.01"), 10);
    assert_eq!(n.size_to_lots("2.5"), 2500);
    assert_eq!(n.size_to_lots("7"), 7000);
    assert_eq!(n.size_to_lots("0.12345"), 123);
    assert_eq!(n.size_to_lots("-1"), 0);
    assert_eq!(n.size_to_lots(""), 0);
}

#[test]
fn external_book_snapshot_and_bbo() {
    let mut ext = ExternalBook::new();
    assert_eq!(ext.bbo(), (None, None));
    ext.apply_snapshot(&[(100, 1), (105, 2), (100, 3)], &[(110, 5), (108, 1)]);
    assert_eq!(ext.bids.len(), 2);
    assert_eq!(ext.bids.get(&100), Some(&3));
    assert_eq!(ext.bbo(), (Some((105, 2)), Some((108, 1))));
    ext.apply_snapshot(&[], &[(120, 4)]);
    assert_eq!(ext.bbo(), (None, Some((120, 4))));
}

#[test]
fn unified_book_picks_better_prices() {
    let mut book = Book::new();
    book.submit_at(&OrderRequest { side: Side::BUY, price: Some(106), quantity: 9 }, 0);
    book.submit_at(&OrderRequest { side: Side::SELL, price: Some(111), quantity: 4 }, 0);
    let mut ext = ExternalBook::new();
    ext.apply_snapshot(&[(105, 2)], &[(108, 1)]);
    let unified = UnifiedBook::new(book, ext, 1_000_000);
    assert_eq!(unified.combined_bbo(), (Some((106, 9)), Some((108, 1))));
}

#[test]
fn unified_book_with_one_side_missing() {
    let book = Book::new();
    let mut ext = ExternalBook::new();
    ext.apply_snapshot(&[(105, 2)], &[]);
    let unified = UnifiedBook::new(book, ext, 1);
    assert_eq!(unified.combined_bbo(), (Some((105, 2)), None));
}

fn meta() -> SpotMeta {
    SpotMeta {
        tokens: vec![
            SpotToken { name: "USDC".to_string(), sz_decimals: 8, index: Some(0) },
            SpotToken { name: "ETH".to_string(), sz_decimals: 4, index: Some(1) },
        ],
        universe: vec![
            SpotPair { name: "BTC/USDC".to_string(), tokens: (7, 0) },
            SpotPair { name: "ETH/USDC".to_string(), tokens: (9, 0) },
            SpotPair { name: "ETH/USDC".to_string(), tokens: (1, 0) },
        ],
    }
}

#[test]
fn adapter_endpoints_and_decimals() {
    let a = HyperliquidAdapter::new("ETH", "ETH/USDC");
    assert_eq!(a.coin, "ETH");
    assert_eq!(a.pair, "ETH/USDC");
    assert_eq!(a.info_url, "https://api.hyperliquid.xyz/info");
    assert_eq!(a.ws_url, "wss://api.hyperliquid.xyz/ws");
    assert_eq!(a.sz_decimals_for_pair(&meta()), 4);
    let b = HyperliquidAdapter::new("BTC", "BTC/USDC");
    assert_eq!(b.sz_decimals_for_pair(&meta()), 6);
    let c = HyperliquidAdapter::new("SOL", "SOL/USDC");
    assert_eq!(c.sz_decimals_for_pair(&meta()), 6);
}

#[test]
fn adapter_normalises_levels() {
    let a = HyperliquidAdapter::new("ETH", "ETH/USDC");
    let n = Normaliser::new(1_000_000, 4);
    let side = vec![
        WsLevel { px: "2500.5".to_string(), sz: "1.25".to_string(), n: 3 },
        WsLevel { px: "2499".to_string(), sz: "0.0001".to_string(), n: 1 },
    ];
    assert_eq!(a.norm_side(&n, &side), vec![(2_500_500_000, 12_500), (2_499_000_000, 1)]);
}

#[test]
fn unified_depth_merges_and_ranks() {
    let mut book = Book::new();
    book.submit_at(&OrderRequest { side: Side::BUY, price: Some(104), quantity: 3 }, 0);
    book.submit_at(&OrderRequest { side: Side::BUY, price: Some(104), quantity: 4 }, 0);
    book.submit_at(&OrderRequest { side: Side::BUY, price: Some(101), quantity: 1 }, 0);
    book.submit_at(&OrderRequest { side: Side::SELL, price: Some(109), quantity: 6 }, 0);
    let mut ext = ExternalBook::new();
    ext.apply_snapshot(&[(105, 2), (104, 10), (100, 5)], &[(108, 1), (109, 2), (112, 3)]);
    let unified = UnifiedBook::new(book, ext, 1);
    let (bids, asks) = unified.combined_depth_top_n(3);
    assert_eq!(bids, vec![(105, 2), (104, 17), (101, 1)]);
    assert_eq!(asks, vec![(108, 1), (109, 8), (112, 3)]);
    let (bids, asks) = unified.combined_depth_top_n(10);
    assert_eq!(bids.len(), 4);
    assert_eq!(asks.len(), 3);
    let (bids, asks) = unified.combined_depth_top_n(0);
    assert!(bids.is_empty() && asks.is_empty());
}
