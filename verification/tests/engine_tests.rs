use orderbook::engine::{MatchingEngine, TradingPair};
use orderbook::errors::EngineError;
use orderbook::order::{BidOrAsk, Order};
use orderbook::price::Price;

fn pair(base: &str, quote: &str) -> TradingPair {
    TradingPair::new(base.to_string(), quote.to_string())
}

fn price(s: &str) -> Price {
    Price::from_decimal(s).unwrap()
}

#[test]
fn engine_registers_markets_once() {
    let mut engine = MatchingEngine::new();
    assert_eq!(engine.add_new_market(pair("BTC", "USD")), Ok(()));
    assert_eq!(engine.add_new_market(pair("ETH", "USD")), Ok(()));
    // the same pair again is rejected, so no resting order is lost
    assert_eq!(
        engine.add_new_market(pair("BTC", "USD")),
        Err(EngineError::MarketAlreadyExists)
    );
}

#[test]
fn engine_rejects_unknown_pair() {
    let mut engine = MatchingEngine::new();
    let order = Order::new(BidOrAsk::Bid, 5).unwrap();
    assert_eq!(
        engine.place_limit_order(&pair("BTC", "USD"), price("10"), order),
        Err(EngineError::MarketNotFound)
    );
    let order = Order::new(BidOrAsk::Bid, 5).unwrap();
    assert_eq!(
        engine.place_market_order(&pair("BTC", "USD"), order).err(),
        Some(EngineError::MarketNotFound)
    );
    assert_eq!(engine.query_best_bid(&pair("BTC", "USD")), None);
    assert_eq!(engine.query_best_ask(&pair("BTC", "USD")), None);
}

#[test]
fn engine_routes_orders_to_their_market() {
    let mut engine = MatchingEngine::new();
    let btc = pair("BTC", "USD");
    let eth = pair("ETH", "USD");
    engine.add_new_market(btc.clone()).unwrap();
    engine.add_new_market(eth.clone()).unwrap();

    let id = engine
        .place_limit_order(&btc, price("20.6"), Order::new(BidOrAsk::Ask, 10).unwrap())
        .unwrap();
    assert_eq!(id, 0);
    engine
        .place_limit_order(&eth, price("1.5"), Order::new(BidOrAsk::Ask, 7).unwrap())
        .unwrap();

    assert_eq!(engine.query_best_ask(&btc), Some(price("20.6")));
    assert_eq!(engine.query_best_ask(&eth), Some(price("1.5")));
    assert_eq!(engine.query_best_bid(&btc), None);

    let report = engine
        .place_market_order(&btc, Order::new(BidOrAsk::Bid, 4).unwrap())
        .unwrap();
    assert_eq!(report.total_matched, 4);
    assert_eq!(report.fully_filled, true);
    assert_eq!(report.fills.len(), 1);
    assert_eq!(report.fills[0].order_id, 0);
    assert_eq!(report.fills[0].price, price("20.6"));

    // the other market is untouched
    assert_eq!(engine.query_best_ask(&eth), Some(price("1.5")));
}

#[test]
fn engine_pairs_compare_by_both_assets() {
    let a = pair("BTC", "USD");
    let b = pair("BTC", "EUR");
    let c = pair("BTC", "USD");
    assert!(a.eq_pair(&c));
    assert!(!a.eq_pair(&b));
}
