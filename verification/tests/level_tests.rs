use orderbook::errors::EngineError;
use orderbook::level::Limit;
use orderbook::order::{BidOrAsk, Order};
use orderbook::price::Price;

fn price(s: &str) -> Price {
    Price::from_decimal(s).unwrap()
}

#[test]
fn limit_total_volume() {
    let price = price("10000");
    let mut limit = Limit::new(price);
    let buy_limit_order1 = Order::new(BidOrAsk::Bid, 100).unwrap();
    let buy_limit_order2 = Order::new(BidOrAsk::Bid, 100).unwrap();
    limit.add_order(0, buy_limit_order1);
    limit.add_order(1, buy_limit_order2);

    assert_eq!(limit.total_volume(), 200u128);
}

#[test]
fn limit_order_single_fill() {
    let price = price("10000");
    let mut limit = Limit::new(price);
    let buy_limit_order = Order::new(BidOrAsk::Bid, 100).unwrap();
    limit.add_order(0, buy_limit_order);

    let mut market_sell_order = Order::new(BidOrAsk::Ask, 99).unwrap();
    limit.fill_order(&mut market_sell_order);

    assert_eq!(market_sell_order.is_filled(), true);
    assert_eq!(limit.orders[0].order.remaining_size, 1);
}

#[test]
fn limit_order_multiple_fill() {
    let price = price("10000");
    let mut limit = Limit::new(price);
    let buy_limit_order1 = Order::new(BidOrAsk::Bid, 100).unwrap();
    let buy_limit_order2 = Order::new(BidOrAsk::Bid, 100).unwrap();
    limit.add_order(0, buy_limit_order1);
    limit.add_order(1, buy_limit_order2);

    let mut market_sell_order = Order::new(BidOrAsk::Ask, 199).unwrap();
    let trades = limit.fill_order(&mut market_sell_order);

    assert_eq!(market_sell_order.is_filled(), true);
    // the first order was consumed whole and left the queue
    assert_eq!(limit.orders.len(), 1);
    assert_eq!(limit.orders[0].id, 1);
    assert_eq!(limit.orders[0].order.is_filled(), false);
    assert_eq!(limit.orders[0].order.remaining_size, 1);
    // both resting orders were touched, in arrival order
    assert_eq!(trades.len(), 2);
    assert_eq!(trades[0].order_id, 0);
    assert_eq!(trades[0].quantity, 100);
    assert_eq!(trades[1].order_id, 1);
    assert_eq!(trades[1].quantity, 99);
}

#[test]
fn limit_volume_is_sum_of_inserted_sizes() {
    let mut limit = Limit::new(price("7"));
    assert_eq!(limit.total_volume(), 0u128);
    let sizes: [u64; 3] = [3, 4, 5];
    for (i, s) in sizes.iter().enumerate() {
        limit.add_order(i as u64, Order::new(BidOrAsk::Ask, *s).unwrap());
    }
    assert_eq!(limit.total_volume(), 12u128);
}

#[test]
fn limit_fifo_tie_break() {
    // two orders at the same price fill in arrival order
    let mut limit = Limit::new(price("100"));
    limit.add_order(10, Order::new(BidOrAsk::Ask, 10).unwrap());
    limit.add_order(11, Order::new(BidOrAsk::Ask, 20).unwrap());

    let mut market_order = Order::new(BidOrAsk::Bid, 15).unwrap();
    let trades = limit.fill_order(&mut market_order);

    assert_eq!(trades.len(), 2);
    assert_eq!(trades[0].order_id, 10);
    assert_eq!(trades[0].quantity, 10);
    assert_eq!(trades[1].order_id, 11);
    assert_eq!(trades[1].quantity, 5);
    assert_eq!(limit.orders.len(), 1);
    assert_eq!(limit.orders[0].id, 11);
    assert_eq!(limit.orders[0].order.remaining_size, 15);
}

#[test]
fn order_rejects_zero_size() {
    assert_eq!(Order::new(BidOrAsk::Bid, 0), Err(EngineError::InvalidSize));
}

#[test]
fn order_apply_fill_rejects_overfill() {
    let mut order = Order::new(BidOrAsk::Bid, 10).unwrap();
    assert_eq!(order.apply_fill(11), Err(EngineError::OverFill));
    assert_eq!(order.remaining_size, 10);
    assert_eq!(order.apply_fill(4), Ok(()));
    assert_eq!(order.remaining_size, 6);
    assert_eq!(order.original_size, 10);
    assert_eq!(order.is_filled(), false);
    assert_eq!(order.apply_fill(6), Ok(()));
    assert_eq!(order.is_filled(), true);
}
