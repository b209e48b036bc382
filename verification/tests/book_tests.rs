// Order book tests. Prices and amounts are exact fixed-point values in
// integer minor units; these tests keep amounts in hundredths, so 100
// stands for 1.0 and 10 for 0.1.

use matching_engine::models::{Order, OrderType, Side};
use matching_engine::orderbook::OrderBook;

#[test]
fn test_add_bid_order() {
    let mut book = OrderBook::new();
    let order = Order::new(1, 101, 50000, 10, Side::Bid, OrderType::Limit);

    book.add_limit_order(order);

    assert!(true);
}

#[test]
fn test_add_ask_order() {
    let mut book = OrderBook::new();
    let order = Order::new(2, 102, 51000, 50, Side::Ask, OrderType::Limit);

    book.add_limit_order(order);

    assert!(true);
}

#[test]
fn test_order_creation() {
    let order = Order::new(1, 101, 50000, 10, Side::Bid, OrderType::Limit);

    assert_eq!(order.id, 1);
    assert_eq!(order.user_id, 101);
    assert_eq!(order.price, 50000);
    assert_eq!(order.amount, 10);
    assert_eq!(order.side, Side::Bid);
}

#[test]
fn test_multiple_orders_at_same_price() {
    let mut book = OrderBook::new();

    let order1 = Order::new(1, 101, 50000, 10, Side::Bid, OrderType::Limit);
    let order2 = Order::new(2, 102, 50000, 20, Side::Bid, OrderType::Limit);

    book.add_limit_order(order1);
    book.add_limit_order(order2);

    assert!(true);
}

#[test]
fn test_cancel_order() {
    let mut book = OrderBook::new();

    let order_id = 100;
    let buy_order = Order::new(order_id, 1, 50000, 100, Side::Bid, OrderType::Limit);
    book.add_limit_order(buy_order);

    let is_cancelled = book.cancel_order(order_id);
    assert!(is_cancelled, "Lệnh phải được hủy thành công");

    let is_cancelled_again = book.cancel_order(order_id);
    assert!(!is_cancelled_again, "Hủy lệnh không tồn tại phải trả về false");
}

#[test]
fn test_cancel_order_multiple_at_same_price() {
    let mut book = OrderBook::new();

    let order1 = Order::new(101, 1, 50000, 100, Side::Bid, OrderType::Limit);
    let order2 = Order::new(102, 2, 50000, 200, Side::Bid, OrderType::Limit);
    let order3 = Order::new(103, 3, 50000, 300, Side::Bid, OrderType::Limit);

    book.add_limit_order(order1);
    book.add_limit_order(order2);
    book.add_limit_order(order3);

    let is_cancelled = book.cancel_order(102);
    assert!(is_cancelled, "Lệnh 102 phải được hủy thành công");

    let is_cancelled = book.cancel_order(101);
    assert!(is_cancelled, "Lệnh 101 phải được hủy thành công");

    let is_cancelled = book.cancel_order(103);
    assert!(is_cancelled, "Lệnh 103 phải được hủy thành công");
}

#[test]
fn test_cancel_nonexistent_order() {
    let mut book = OrderBook::new();

    let is_cancelled = book.cancel_order(999);
    assert!(!is_cancelled, "Hủy lệnh không tồn tại phải trả về false");
}

#[test]
fn test_cancel_bid_and_ask_orders() {
    let mut book = OrderBook::new();

    let bid_order = Order::new(200, 1, 50000, 100, Side::Bid, OrderType::Limit);
    book.add_limit_order(bid_order);

    let ask_order = Order::new(201, 2, 51000, 100, Side::Ask, OrderType::Limit);
    book.add_limit_order(ask_order);

    let is_cancelled = book.cancel_order(200);
    assert!(is_cancelled, "Lệnh Bid phải được hủy thành công");

    let is_cancelled = book.cancel_order(201);
    assert!(is_cancelled, "Lệnh Ask phải được hủy thành công");
}

#[test]
fn test_market_order_full_match() {
    let mut book = OrderBook::new();

    book.add_limit_order(Order::new(1, 101, 50000, 100, Side::Ask, OrderType::Limit));
    book.add_limit_order(Order::new(2, 102, 51000, 100, Side::Ask, OrderType::Limit));

    let market_order = Order::new(3, 200, 0, 150, Side::Bid, OrderType::Market);
    let trades = book.process_order(market_order);

    assert_eq!(trades.len(), 2, "Phải có 2 trades");
    assert_eq!(trades[0].price, 50000, "Trade đầu tiên ở giá 50000");
    assert_eq!(trades[0].amount, 100, "Trade đầu tiên khớp 1.0 BTC");
    assert_eq!(trades[1].price, 51000, "Trade thứ hai ở giá 51000");
    assert_eq!(trades[1].amount, 50, "Trade thứ hai khớp 0.5 BTC");
}

#[test]
fn test_market_order_partial_match() {
    let mut book = OrderBook::new();

    book.add_limit_order(Order::new(1, 101, 50000, 100, Side::Ask, OrderType::Limit));

    let market_order = Order::new(2, 200, 0, 200, Side::Bid, OrderType::Market);
    let trades = book.process_order(market_order);

    assert_eq!(trades.len(), 1, "Chỉ khớp được 1 trade");
    assert_eq!(trades[0].amount, 100, "Khớp được 1.0 BTC");
}

#[test]
fn test_market_order_sell() {
    let mut book = OrderBook::new();

    book.add_limit_order(Order::new(1, 101, 50000, 100, Side::Bid, OrderType::Limit));
    book.add_limit_order(Order::new(2, 102, 49000, 50, Side::Bid, OrderType::Limit));

    let market_order = Order::new(3, 200, 0, 130, Side::Ask, OrderType::Market);
    let trades = book.process_order(market_order);

    assert_eq!(trades.len(), 2, "Phải có 2 trades");
    assert_eq!(trades[0].price, 50000, "Bán ở giá 50000 trước (giá tốt nhất)");
    assert_eq!(trades[0].amount, 100, "Bán 1.0 BTC");
    assert_eq!(trades[1].price, 49000, "Bán ở giá 49000 sau");
    assert_eq!(trades[1].amount, 30, "Bán 0.3 BTC");
}

#[test]
fn test_limit_order_still_works() {
    let mut book = OrderBook::new();

    book.add_limit_order(Order::new(1, 101, 51000, 100, Side::Ask, OrderType::Limit));

    let limit_order = Order::new(2, 200, 50000, 100, Side::Bid, OrderType::Limit);
    let trades = book.process_order(limit_order);

    assert_eq!(trades.len(), 0, "Không có trade nào xảy ra");
}

#[test]
fn test_market_order_ignores_price_field() {
    let mut book = OrderBook::new();

    book.add_limit_order(Order::new(1, 101, 50000, 100, Side::Ask, OrderType::Limit));

    let market_order = Order::new(2, 200, 1000, 100, Side::Bid, OrderType::Market);
    let trades = book.process_order(market_order);

    assert_eq!(trades.len(), 1, "Khớp được 1 trade");
    assert_eq!(trades[0].price, 50000, "Khớp ở giá 50000");
}

#[test]
fn test_price_time_priority_same_level() {
    let mut book = OrderBook::new();

    // Three asks resting at one price, in arrival order 1, 2, 3.
    book.add_limit_order(Order::new(1, 101, 50000, 100, Side::Ask, OrderType::Limit));
    book.add_limit_order(Order::new(2, 102, 50000, 200, Side::Ask, OrderType::Limit));
    book.add_limit_order(Order::new(3, 103, 50000, 300, Side::Ask, OrderType::Limit));

    // A partially-filling buy must consume order 1 whole, then part of 2.
    let trades = book.process_order(Order::new(9, 200, 0, 150, Side::Bid, OrderType::Market));

    assert_eq!(trades.len(), 2);
    assert_eq!(trades[0].seller_order_id, 1);
    assert_eq!(trades[0].amount, 100);
    assert_eq!(trades[1].seller_order_id, 2);
    assert_eq!(trades[1].amount, 50);

    // Order 1 is gone; orders 2 and 3 still rest.
    assert!(!book.cancel_order(1));
    assert!(book.cancel_order(2));
    assert!(book.cancel_order(3));
}

#[test]
fn test_best_price_first_limit_crossing() {
    let mut book = OrderBook::new();

    book.add_limit_order(Order::new(1, 101, 51000, 100, Side::Ask, OrderType::Limit));
    book.add_limit_order(Order::new(2, 102, 50000, 100, Side::Ask, OrderType::Limit));

    // A buy willing to pay 51000 must still fill the 50000 ask first.
    let trades = book.process_order(Order::new(3, 200, 51000, 150, Side::Bid, OrderType::Limit));

    assert_eq!(trades.len(), 2);
    assert_eq!(trades[0].price, 50000);
    assert_eq!(trades[0].amount, 100);
    assert_eq!(trades[1].price, 51000);
    assert_eq!(trades[1].amount, 50);
}

#[test]
fn test_market_remainder_never_rests() {
    let mut book = OrderBook::new();

    book.add_limit_order(Order::new(1, 101, 50000, 100, Side::Ask, OrderType::Limit));

    let trades = book.process_order(Order::new(2, 200, 0, 200, Side::Bid, OrderType::Market));
    assert_eq!(trades.len(), 1);

    // The unfilled remainder was discarded: no bid depth, not cancellable.
    assert_eq!(book.get_depth(10, true).len(), 0);
    assert!(!book.cancel_order(2));
}

#[test]
fn test_sell_stop_triggers_on_falling_price() {
    let mut book = OrderBook::new();

    // A dormant sell stop: trigger 49000, limit price 48500.
    let mut stop = Order::new(10, 300, 48500, 100, Side::Ask, OrderType::StopLimit);
    stop.trigger_price = Some(49000);
    let trades = book.process_order(stop);
    assert_eq!(trades.len(), 0, "Stop order must not trade on admission");

    // A resting bid and a sell that trades at 49000 bring the last price
    // to the trigger.
    book.add_limit_order(Order::new(1, 101, 49000, 100, Side::Bid, OrderType::Limit));
    let trades = book.process_order(Order::new(2, 102, 49000, 50, Side::Ask, OrderType::Limit));

    // The direct trade, then the fired stop's trade against the rest of
    // the bid; its remainder rests as an ordinary Limit ask at 48500.
    assert_eq!(trades.len(), 2);
    assert_eq!(trades[0].price, 49000);
    assert_eq!(trades[0].amount, 50);
    assert_eq!(trades[1].price, 49000);
    assert_eq!(trades[1].amount, 50);
    assert_eq!(trades[1].seller_order_id, 10);
    assert_eq!(book.get_best_ask(), Some(48500));
    assert!(book.cancel_order(10), "The fired stop now rests as a Limit order");
}

#[test]
fn test_buy_stop_triggers_on_rising_price() {
    let mut book = OrderBook::new();

    let mut stop = Order::new(11, 300, 52500, 30, Side::Bid, OrderType::StopLimit);
    stop.trigger_price = Some(52000);
    assert_eq!(book.process_order(stop).len(), 0);

    book.add_limit_order(Order::new(1, 101, 52000, 100, Side::Ask, OrderType::Limit));
    let trades = book.process_order(Order::new(2, 102, 52000, 50, Side::Bid, OrderType::Limit));

    assert_eq!(trades.len(), 2);
    assert_eq!(trades[0].price, 52000);
    assert_eq!(trades[0].amount, 50);
    assert_eq!(trades[1].price, 52000);
    assert_eq!(trades[1].amount, 30);
    assert_eq!(trades[1].buyer_order_id, 11);
}

#[test]
fn test_stop_without_trigger_rejected() {
    let mut book = OrderBook::new();

    // A StopLimit order without a trigger price is rejected at admission:
    // no trade, nothing stored.
    let stop = Order::new(12, 300, 50000, 100, Side::Ask, OrderType::StopLimit);
    let trades = book.process_order(stop);

    assert_eq!(trades.len(), 0);
    assert!(!book.cancel_order(12));
}

#[test]
fn test_dormant_stop_can_be_cancelled() {
    let mut book = OrderBook::new();

    let mut stop = Order::new(13, 300, 48500, 100, Side::Ask, OrderType::StopLimit);
    stop.trigger_price = Some(49000);
    book.process_order(stop);

    assert!(book.cancel_order(13), "A dormant stop is cancellable by id");
    assert!(!book.cancel_order(13));
}

#[test]
fn test_depth_round_trip() {
    let mut book = OrderBook::new();

    book.add_limit_order(Order::new(1, 101, 50000, 100, Side::Bid, OrderType::Limit));
    book.add_limit_order(Order::new(2, 102, 49990, 200, Side::Bid, OrderType::Limit));
    book.add_limit_order(Order::new(3, 103, 49980, 300, Side::Bid, OrderType::Limit));

    let depth = book.get_depth(10, true);
    assert_eq!(depth.len(), 3);
    assert_eq!(depth[0], (50000, 100));
    assert_eq!(depth[1], (49990, 200));
    assert_eq!(depth[2], (49980, 300));
}

#[test]
fn test_depth_sums_one_level() {
    let mut book = OrderBook::new();

    book.add_limit_order(Order::new(1, 101, 50000, 100, Side::Ask, OrderType::Limit));
    book.add_limit_order(Order::new(2, 102, 50000, 250, Side::Ask, OrderType::Limit));

    let depth = book.get_depth(10, false);
    assert_eq!(depth.len(), 1);
    assert_eq!(depth[0], (50000, 350));
}

#[test]
fn test_depth_respects_limit() {
    let mut book = OrderBook::new();

    book.add_limit_order(Order::new(1, 101, 50000, 100, Side::Bid, OrderType::Limit));
    book.add_limit_order(Order::new(2, 102, 49990, 200, Side::Bid, OrderType::Limit));
    book.add_limit_order(Order::new(3, 103, 49980, 300, Side::Bid, OrderType::Limit));

    let depth = book.get_depth(2, true);
    assert_eq!(depth.len(), 2);
    assert_eq!(depth[0], (50000, 100));
    assert_eq!(depth[1], (49990, 200));
}

#[test]
fn test_best_bid_and_ask() {
    let mut book = OrderBook::new();
    assert_eq!(book.get_best_bid(), None);
    assert_eq!(book.get_best_ask(), None);

    book.add_limit_order(Order::new(1, 101, 50000, 100, Side::Bid, OrderType::Limit));
    book.add_limit_order(Order::new(2, 102, 49000, 100, Side::Bid, OrderType::Limit));
    book.add_limit_order(Order::new(3, 103, 51000, 100, Side::Ask, OrderType::Limit));
    book.add_limit_order(Order::new(4, 104, 52000, 100, Side::Ask, OrderType::Limit));

    assert_eq!(book.get_best_bid(), Some(50000));
    assert_eq!(book.get_best_ask(), Some(51000));
}

#[test]
fn test_trade_ids_increase_across_calls() {
    let mut book = OrderBook::new();

    book.add_limit_order(Order::new(1, 101, 50000, 100, Side::Ask, OrderType::Limit));
    book.add_limit_order(Order::new(2, 102, 50000, 100, Side::Ask, OrderType::Limit));

    let t1 = book.process_order(Order::new(3, 200, 0, 100, Side::Bid, OrderType::Market));
    let t2 = book.process_order(Order::new(4, 201, 0, 100, Side::Bid, OrderType::Market));

    assert_eq!(t1.len(), 1);
    assert_eq!(t2.len(), 1);
    assert!(t1[0].trade_id < t2[0].trade_id, "Trade ids never restart");
}

#[test]
fn test_market_order_on_empty_book() {
    let mut book = OrderBook::new();

    let trades = book.process_order(Order::new(1, 101, 0, 100, Side::Bid, OrderType::Market));
    assert_eq!(trades.len(), 0);
    assert_eq!(book.get_depth(10, true).len(), 0);
    assert_eq!(book.get_depth(10, false).len(), 0);
}

#[test]
fn test_limit_buy_rests_at_its_price() {
    let mut book = OrderBook::new();

    book.add_limit_order(Order::new(1, 101, 51000, 100, Side::Ask, OrderType::Limit));

    let trades = book.process_order(Order::new(2, 200, 50000, 100, Side::Bid, OrderType::Limit));
    assert_eq!(trades.len(), 0);

    // The buy now rests at 50000.
    let depth = book.get_depth(10, true);
    assert_eq!(depth.len(), 1);
    assert_eq!(depth[0], (50000, 100));
    assert_eq!(book.get_best_bid(), Some(50000));
}

#[test]
fn test_conservation_of_quantity() {
    let mut book = OrderBook::new();

    book.add_limit_order(Order::new(1, 101, 50000, 70, Side::Ask, OrderType::Limit));
    book.add_limit_order(Order::new(2, 102, 50500, 80, Side::Ask, OrderType::Limit));

    // The taker brings 100; the trades carry exactly 100, never more, and
    // the ask side keeps the remaining 50.
    let trades = book.process_order(Order::new(3, 200, 0, 100, Side::Bid, OrderType::Market));
    let total: u64 = trades.iter().map(|t| t.amount).sum();
    assert_eq!(total, 100);

    let depth = book.get_depth(10, false);
    assert_eq!(depth, vec![(50500, 50)]);
}
