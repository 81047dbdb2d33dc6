use orderbook::book::OrderBook;
use orderbook::errors::EngineError;
use orderbook::order::{BidOrAsk, Order};
use orderbook::price::Price;

fn price(s: &str) -> Price {
    Price::from_decimal(s).unwrap()
}

fn ask(size: u64) -> Order {
    Order::new(BidOrAsk::Ask, size).unwrap()
}

fn bid(size: u64) -> Order {
    Order::new(BidOrAsk::Bid, size).unwrap()
}

#[test]
fn orderbook_fill_market_order_ask() {
    let mut orderbook = OrderBook::new();
    orderbook.add_limit_order(price("500"), ask(10)).unwrap();
    orderbook.add_limit_order(price("100"), ask(10)).unwrap();
    orderbook.add_limit_order(price("200"), ask(10)).unwrap();
    orderbook.add_limit_order(price("300"), ask(10)).unwrap();

    assert_eq!(orderbook.ask_limits()[0].price, price("100"));

    let mut market_order = bid(20);
    let report = orderbook.fill_market_order(&mut market_order);

    assert_eq!(market_order.is_filled(), true);

    // the levels at 100 and 200 were consumed whole and removed
    assert_eq!(report.fills.len(), 2);
    assert_eq!(report.fills[0].price, price("100"));
    assert_eq!(report.fills[0].quantity, 10);
    assert_eq!(report.fills[1].price, price("200"));
    assert_eq!(report.fills[1].quantity, 10);
    assert_eq!(orderbook.ask_limits().len(), 2);
    assert_eq!(orderbook.ask_limits()[0].price, price("300"));
    assert_eq!(orderbook.ask_limits()[1].price, price("500"));
}

#[test]
fn orderbook_fill_market_order_bid() {
    let mut orderbook = OrderBook::new();
    orderbook.add_limit_order(price("500"), bid(10)).unwrap();
    orderbook.add_limit_order(price("100"), bid(10)).unwrap();
    orderbook.add_limit_order(price("200"), bid(10)).unwrap();
    orderbook.add_limit_order(price("300"), bid(10)).unwrap();

    assert_eq!(orderbook.bid_limits()[0].price, price("500"));

    let mut market_order = ask(20);
    let report = orderbook.fill_market_order(&mut market_order);

    assert_eq!(market_order.is_filled(), true);

    // the levels at 500 and 300 were consumed whole and removed
    assert_eq!(report.fills.len(), 2);
    assert_eq!(report.fills[0].price, price("500"));
    assert_eq!(report.fills[0].quantity, 10);
    assert_eq!(report.fills[1].price, price("300"));
    assert_eq!(report.fills[1].quantity, 10);
    assert_eq!(orderbook.bid_limits().len(), 2);
    assert_eq!(orderbook.bid_limits()[0].price, price("200"));
    assert_eq!(orderbook.bid_limits()[1].price, price("100"));
}

#[test]
fn partial_fill_across_levels() {
    // Ask 10 at 100; Ask 10 at 200; market buy 15:
    // matched 15, filled whole, 10 at 100 and 5 at 200,
    // level 100 removed, level 200 keeps 5 remaining.
    let mut orderbook = OrderBook::new();
    orderbook.add_limit_order(price("100"), ask(10)).unwrap();
    orderbook.add_limit_order(price("200"), ask(10)).unwrap();

    let mut market_order = bid(15);
    let report = orderbook.fill_market_order(&mut market_order);

    assert_eq!(report.total_matched, 15);
    assert_eq!(report.fully_filled, true);
    assert_eq!(report.fills.len(), 2);
    assert_eq!(report.fills[0].price, price("100"));
    assert_eq!(report.fills[0].quantity, 10);
    assert_eq!(report.fills[1].price, price("200"));
    assert_eq!(report.fills[1].quantity, 5);
    assert_eq!(orderbook.ask_limits().len(), 1);
    assert_eq!(orderbook.ask_limits()[0].price, price("200"));
    assert_eq!(orderbook.ask_limits()[0].total_volume(), 5u128);
}

#[test]
fn market_order_against_empty_book() {
    let mut orderbook = OrderBook::new();
    let mut market_order = bid(5);
    let report = orderbook.fill_market_order(&mut market_order);

    assert_eq!(report.total_matched, 0);
    assert_eq!(report.fully_filled, false);
    assert_eq!(report.fills.len(), 0);
    assert_eq!(market_order.remaining_size, 5);
}

#[test]
fn market_order_exceeding_liquidity_is_not_rested() {
    let mut orderbook = OrderBook::new();
    orderbook.add_limit_order(price("100"), ask(10)).unwrap();

    let mut market_order = bid(25);
    let report = orderbook.fill_market_order(&mut market_order);

    // matched = min(25, 10); the remainder is discarded, not rested
    assert_eq!(report.total_matched, 10);
    assert_eq!(report.fully_filled, false);
    assert_eq!(market_order.remaining_size, 15);
    assert_eq!(orderbook.ask_limits().len(), 0);
    assert_eq!(orderbook.bid_limits().len(), 0);
}

#[test]
fn price_priority_cheapest_ask_first() {
    let mut orderbook = OrderBook::new();
    orderbook.add_limit_order(price("300"), ask(10)).unwrap();
    orderbook.add_limit_order(price("100"), ask(10)).unwrap();
    orderbook.add_limit_order(price("200"), ask(10)).unwrap();

    let mut market_order = bid(5);
    let report = orderbook.fill_market_order(&mut market_order);

    // only the 100-level is touched while it can cover the order
    assert_eq!(report.fills.len(), 1);
    assert_eq!(report.fills[0].price, price("100"));
    assert_eq!(report.fills[0].quantity, 5);
    assert_eq!(orderbook.ask_limits().len(), 3);
    assert_eq!(orderbook.ask_limits()[0].total_volume(), 5u128);

    // once 100 is exhausted, matching proceeds to 200
    let mut second_order = bid(10);
    let second = orderbook.fill_market_order(&mut second_order);
    assert_eq!(second.fills[0].price, price("100"));
    assert_eq!(second.fills[0].quantity, 5);
    assert_eq!(second.fills[1].price, price("200"));
    assert_eq!(second.fills[1].quantity, 5);
}

#[test]
fn empty_level_cleanup_is_idempotent() {
    let mut orderbook = OrderBook::new();
    orderbook.add_limit_order(price("100"), ask(10)).unwrap();
    orderbook.add_limit_order(price("200"), ask(10)).unwrap();

    let mut market_order = bid(10);
    orderbook.fill_market_order(&mut market_order);

    // the 100-level's last order was fully filled: the level is absent,
    // as if it never existed, and no stale entry remains
    let asks = orderbook.ask_limits();
    assert_eq!(asks.len(), 1);
    assert!(asks.iter().all(|l| l.price != price("100")));

    // filling again finds the book consistent, no error and no panic
    let mut next_order = bid(1);
    let report = orderbook.fill_market_order(&mut next_order);
    assert_eq!(report.fills[0].price, price("200"));
}

#[test]
fn add_limit_order_assigns_sequential_ids() {
    let mut orderbook = OrderBook::new();
    let a = orderbook.add_limit_order(price("100"), ask(10)).unwrap();
    let b = orderbook.add_limit_order(price("100"), ask(10)).unwrap();
    let c = orderbook.add_limit_order(price("90"), bid(10)).unwrap();
    assert_eq!(a, 0);
    assert_eq!(b, 1);
    assert_eq!(c, 2);
}

#[test]
fn add_limit_order_rejects_spent_order() {
    let mut orderbook = OrderBook::new();
    let mut spent = ask(10);
    spent.apply_fill(10).unwrap();
    assert_eq!(
        orderbook.add_limit_order(price("100"), spent),
        Err(EngineError::InvalidOrder)
    );
    assert_eq!(orderbook.ask_limits().len(), 0);
}

#[test]
fn best_bid_and_best_ask() {
    let mut orderbook = OrderBook::new();
    assert_eq!(orderbook.best_bid(), None);
    assert_eq!(orderbook.best_ask(), None);

    orderbook.add_limit_order(price("100"), ask(10)).unwrap();
    orderbook.add_limit_order(price("90"), ask(10)).unwrap();
    orderbook.add_limit_order(price("80"), bid(10)).unwrap();
    orderbook.add_limit_order(price("85"), bid(10)).unwrap();

    assert_eq!(orderbook.best_ask(), Some(price("90")));
    assert_eq!(orderbook.best_bid(), Some(price("85")));
}
