// Router, configuration, data model and snapshot tests. Amounts are in
// hundredths of a unit, as in the book tests.

use matching_engine::config::Config;
use matching_engine::engine::MatchingEngine;
use matching_engine::models::{Command, EngineEvent, Order, OrderType, Side};
use matching_engine::snapshot::OrderBookSnapshot;

#[test]
fn test_order_type_default_is_limit() {
    assert_eq!(OrderType::default(), OrderType::Limit);
}

#[test]
fn test_config_default_values() {
    let config = Config::default();
    assert_eq!(config.server.host, "0.0.0.0");
    assert_eq!(config.server.port, 8080);
    assert_eq!(config.matching.max_orders_per_price, 1000);
    assert_eq!(config.matching.enable_logging, true);
}

#[test]
fn test_place_command_emits_order_placed() {
    let mut engine = MatchingEngine::new();

    let order = Order::new(1, 101, 50000, 100, Side::Bid, OrderType::Limit);
    let events = engine.process_command(Command::Place(order));

    assert_eq!(events.len(), 1);
    match &events[0] {
        EngineEvent::OrderPlaced { order_id, user_id, symbol, price, amount, side } => {
            assert_eq!(*order_id, 1);
            assert_eq!(*user_id, 101);
            assert_eq!(symbol, "BTC/USDT");
            assert_eq!(*price, 50000);
            assert_eq!(*amount, 100);
            assert_eq!(*side, Side::Bid);
        },
        other => panic!("expected OrderPlaced, got {:?}", other),
    }
}

#[test]
fn test_place_command_emits_trades_in_order() {
    let mut engine = MatchingEngine::new();

    engine.process_command(Command::Place(Order::new(
        1,
        101,
        50000,
        100,
        Side::Ask,
        OrderType::Limit,
    )));
    engine.process_command(Command::Place(Order::new(
        2,
        102,
        51000,
        100,
        Side::Ask,
        OrderType::Limit,
    )));
    let events = engine.process_command(Command::Place(Order::new(
        3,
        200,
        0,
        150,
        Side::Bid,
        OrderType::Market,
    )));

    assert_eq!(events.len(), 3);
    assert!(matches!(events[0], EngineEvent::OrderPlaced { .. }));
    match &events[1] {
        EngineEvent::TradeExecuted { trade } => {
            assert_eq!(trade.price, 50000);
            assert_eq!(trade.amount, 100);
            assert_eq!(trade.buyer_order_id, 3);
            assert_eq!(trade.seller_order_id, 1);
        },
        other => panic!("expected TradeExecuted, got {:?}", other),
    }
    match &events[2] {
        EngineEvent::TradeExecuted { trade } => {
            assert_eq!(trade.price, 51000);
            assert_eq!(trade.amount, 50);
        },
        other => panic!("expected TradeExecuted, got {:?}", other),
    }
}

#[test]
fn test_cancel_command_reports_success() {
    let mut engine = MatchingEngine::new();

    engine.process_command(Command::Place(Order::new(
        7,
        101,
        50000,
        100,
        Side::Bid,
        OrderType::Limit,
    )));

    let events = engine.process_command(Command::Cancel(7));
    assert_eq!(events.len(), 1);
    assert!(matches!(
        events[0],
        EngineEvent::OrderCancelled { order_id: 7, success: true }
    ));

    let events = engine.process_command(Command::Cancel(7));
    assert!(matches!(
        events[0],
        EngineEvent::OrderCancelled { order_id: 7, success: false }
    ));
}

#[test]
fn test_cancel_unknown_id_is_not_an_error() {
    let mut engine = MatchingEngine::new();
    let events = engine.process_command(Command::Cancel(424242));
    assert_eq!(events.len(), 1);
    assert!(matches!(
        events[0],
        EngineEvent::OrderCancelled { order_id: 424242, success: false }
    ));
}

#[test]
fn test_get_orderbook_by_symbol() {
    let mut engine = MatchingEngine::new();
    assert!(engine.get_orderbook("BTC/USDT").is_none());

    engine.process_command(Command::Place(Order::new(
        1,
        101,
        50000,
        100,
        Side::Bid,
        OrderType::Limit,
    )));

    let book = engine.get_orderbook("BTC/USDT").expect("book must exist after a Place");
    assert_eq!(book.get_best_bid(), Some(50000));
    assert!(engine.get_orderbook("ETH/USDT").is_none());
}

#[test]
fn test_snapshot_captures_depth() {
    let mut engine = MatchingEngine::new();
    engine.process_command(Command::Place(Order::new(
        1,
        101,
        50000,
        150,
        Side::Bid,
        OrderType::Limit,
    )));
    engine.process_command(Command::Place(Order::new(
        2,
        102,
        50001,
        120,
        Side::Ask,
        OrderType::Limit,
    )));

    let book = engine.get_orderbook("BTC/USDT").unwrap();
    let snapshot = OrderBookSnapshot::capture("BTC/USDT", book, 10, 1234567890);

    assert_eq!(snapshot.symbol, "BTC/USDT");
    assert_eq!(snapshot.bids, vec![(50000, 150)]);
    assert_eq!(snapshot.asks, vec![(50001, 120)]);
    assert_eq!(snapshot.timestamp, 1234567890);
}

#[test]
fn test_books_are_per_symbol() {
    let mut engine = MatchingEngine::new();

    let mut eth_ask = Order::new(1, 101, 3000, 100, Side::Ask, OrderType::Limit);
    eth_ask.symbol = "ETH/USDT".to_string();
    engine.process_command(Command::Place(eth_ask));

    let btc_buy = Order::new(2, 102, 50000, 100, Side::Bid, OrderType::Limit);
    let events = engine.process_command(Command::Place(btc_buy));

    // The BTC buy must not match the ETH ask: different books.
    assert_eq!(events.len(), 1);
    assert_eq!(engine.get_orderbook("ETH/USDT").unwrap().get_best_ask(), Some(3000));
    assert_eq!(engine.get_orderbook("BTC/USDT").unwrap().get_best_bid(), Some(50000));
}

#[test]
fn test_cancel_scans_all_books() {
    let mut engine = MatchingEngine::new();

    let mut eth_ask = Order::new(1, 101, 3000, 100, Side::Ask, OrderType::Limit);
    eth_ask.symbol = "ETH/USDT".to_string();
    engine.process_command(Command::Place(eth_ask));
    engine.process_command(Command::Place(Order::new(
        2,
        102,
        50000,
        100,
        Side::Bid,
        OrderType::Limit,
    )));

    // The Cancel command carries no symbol; the router finds the order in
    // the second book.
    let events = engine.process_command(Command::Cancel(2));
    assert!(matches!(
        events[0],
        EngineEvent::OrderCancelled { order_id: 2, success: true }
    ));
    assert_eq!(engine.get_orderbook("BTC/USDT").unwrap().get_best_bid(), None);
    assert_eq!(engine.get_orderbook("ETH/USDT").unwrap().get_best_ask(), Some(3000));
}
