//! The data records exchanged by the order book and the engine router:
//! orders, trades, inbound commands and outbound events.
//!
//! Prices and quantities are exact fixed-point values carried as integer
//! minor units, so every comparison and every conservation argument is
//! exact.

use vstd::prelude::*;

verus! {

/// Which side of the book an order belongs to: `Bid` buys, `Ask` sells.
#[derive(Clone, Copy, PartialEq, Eq, Structural, Debug)]
pub enum Side {
    Bid,
    Ask,
}

impl Side {
    /// The side an incoming order trades against.
    pub open spec fn opposite(self) -> Side {
        match self {
            Side::Bid => Side::Ask,
            Side::Ask => Side::Bid,
        }
    }
}

/// How an order is matched: immediately at a limit price, immediately at
/// any price, or held dormant until a trigger price is crossed.
#[derive(Clone, Copy, PartialEq, Eq, Structural, Debug)]
pub enum OrderType {
    Limit,
    Market,
    StopLimit,
}

impl Default for OrderType {
    /// An order whose kind is left unspecified is treated as a Limit order.
    fn default() -> (r: OrderType)
        ensures
            r == OrderType::Limit,
    {
        OrderType::Limit
    }
}

/// One order as it enters and rests in a book.
///
/// `price` is meaningless for a Market order; `trigger_price` must be
/// present exactly when `order_type` is `StopLimit`.
#[derive(Clone, Debug)]
#[verifier::ext_equal]
pub struct Order {
    pub id: u64,
    pub user_id: u64,
    pub symbol: String,
    pub price: u64,
    pub amount: u64,
    pub side: Side,
    pub order_type: OrderType,
    pub trigger_price: Option<u64>,
    pub timestamp: u64,
}

impl Order {
    /// Builds an order on the default symbol; handy for tests and callers
    /// that trade a single pair.
    pub fn new(
        id: u64,
        user_id: u64,
        price: u64,
        amount: u64,
        side: Side,
        order_type: OrderType,
    ) -> (r: Order)
        ensures
            r.id == id,
            r.user_id == user_id,
            r.price == price,
            r.amount == amount,
            r.side == side,
            r.order_type == order_type,
            r.trigger_price is None,
            r.timestamp == 0,
            r.symbol@ == "BTC/USDT"@,
    {
        Order {
            id,
            user_id,
            symbol: "BTC/USDT".to_owned(),
            price,
            amount,
            side,
            order_type,
            trigger_price: None,
            timestamp: 0,
        }
    }
}

/// The record of one execution: the resting (maker) order sets the price.
#[derive(Clone, Copy, PartialEq, Eq, Structural, Debug)]
pub struct Trade {
    pub trade_id: u64,
    pub buyer_order_id: u64,
    pub seller_order_id: u64,
    pub price: u64,
    pub amount: u64,
    pub timestamp: u64,
}

/// An inbound instruction for the engine router.
#[derive(Debug)]
pub enum Command {
    Place(Order),
    Cancel(u64),
}

/// An outbound event produced while processing one command.
#[derive(Debug)]
pub enum EngineEvent {
    OrderPlaced {
        order_id: u64,
        user_id: u64,
        symbol: String,
        price: u64,
        amount: u64,
        side: Side,
    },
    OrderCancelled { order_id: u64, success: bool },
    TradeExecuted { trade: Trade },
}

} // verus!
