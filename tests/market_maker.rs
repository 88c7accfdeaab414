use lobx_rs::engine::book::Book;
use lobx_rs::engine::types::Side;
use lobx_rs::market_data::market_maker::{compute_quotes, MarketMaker, Quote, QuoteAction, SimulatedFill};

#[test]
fn quotes_around_the_mid() {
    assert_eq!(compute_quotes(2_000_000_000, 2_002_000_000, 10, 0), Some((1_999_999_500, 2_002_000_500)));
}

#[test]
fn inventory_widens_the_spread() {
    assert_eq!(compute_quotes(2_000_000_000, 2_002_000_000, 10, 100), Some((1_998_999_000, 2_003_001_000)));
    assert_eq!(compute_quotes(2_000_000_000, 2_002_000_000, 10, -100), Some((1_998_999_000, 2_003_001_000)));
}

#[test]
fn quotes_that_overflow_or_go_negative_are_refused() {
    assert_eq!(compute_quotes(i64::MAX, i64::MAX, 10, 0), None);
    assert_eq!(compute_quotes(100, 200, 10, 0), None);
    assert_eq!(compute_quotes(2_000_000_000, 2_002_000_000, 10, 10_000_000), None);
    assert_eq!(compute_quotes(2_000_000_000, 2_002_000_000, u64::MAX, 0), None);
}

fn posted(side: Side, level: u64, order_id: u64, price: i64, size: u64) -> QuoteAction {
    QuoteAction::Posted { quote: Quote { side, level, order_id }, price, size }
}

#[test]
fn update_quotes_posts_three_levels() {
    let mut mm = MarketMaker::new(Book::new());
    assert_eq!(mm.next_quote_id, 1000);
    let actions = mm.update_quotes(Some((2_000_000_000, 1)), Some((2_002_000_000, 1)), 10);
    assert_eq!(
        actions,
        vec![
            posted(Side::BUY, 1, 1, 1_999_999_500, 100_000_000),
            posted(Side::SELL, 1, 2, 2_002_000_500, 100_000_000),
            posted(Side::BUY, 2, 3, 1_999_899_500, 50_000_000),
            posted(Side::SELL, 2, 4, 2_002_100_500, 50_000_000),
            posted(Side::BUY, 3, 5, 1_999_799_500, 25_000_000),
            posted(Side::SELL, 3, 6, 2_002_200_500, 25_000_000),
        ]
    );
    assert_eq!(mm.active_quotes.len(), 6);
    assert_eq!(mm.book.best_bid(), Some((1_999_999_500, 100_000_000)));
    assert_eq!(mm.book.best_ask(), Some((2_002_000_500, 100_000_000)));
}

#[test]
fn update_quotes_replaces_live_quotes() {
    let mut mm = MarketMaker::new(Book::new());
    mm.update_quotes(Some((2_000_000_000, 1)), Some((2_002_000_000, 1)), 10);
    let actions = mm.update_quotes(Some((2_000_000_000, 1)), Some((2_002_000_000, 1)), 10);
    assert_eq!(actions.len(), 12);
    assert_eq!(actions[0], QuoteAction::Cancelled { quote: Quote { side: Side::BUY, level: 1, order_id: 1 } });
    assert_eq!(actions[5], QuoteAction::Cancelled { quote: Quote { side: Side::SELL, level: 3, order_id: 6 } });
    assert_eq!(actions[6], posted(Side::BUY, 1, 7, 1_999_999_500, 100_000_000));
    assert_eq!(mm.book.id_index.len(), 6);
}

#[test]
fn update_quotes_without_outside_prices_does_nothing() {
    let mut mm = MarketMaker::new(Book::new());
    assert_eq!(mm.update_quotes(None, Some((2_002_000_000, 1)), 10), vec![]);
    assert_eq!(mm.book.next_order_id, 1);
}

#[test]
fn crosses_simulate_fills() {
    let mut mm = MarketMaker::new(Book::new());
    mm.update_quotes(Some((2_000_000_000, 1)), Some((2_002_000_000, 1)), 10);
    let fills = mm.check_crosses(Some((1_000, 1)), Some((1_999_999_000, 1)));
    assert_eq!(fills, vec![SimulatedFill { bought: true, quantity: 10_000_000, price: 1_999_999_500 }]);
    assert_eq!(mm.inventory, 10_000_000);
    let fills = mm.check_crosses(Some((2_002_000_500, 1)), None);
    assert_eq!(fills, vec![SimulatedFill { bought: false, quantity: 10_000_000, price: 2_002_000_500 }]);
    assert_eq!(mm.inventory, 0);
    assert_eq!(mm.check_crosses(Some((1, 1)), Some((i64::MAX, 1))), vec![]);
}
