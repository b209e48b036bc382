//! Read-only depth snapshots of one book, the record handed to external
//! publishers. Capturing a snapshot never changes the book; publishing it
//! is the caller's concern and never required for matching correctness.

use vstd::prelude::*;

use crate::levels::depth_view;
use crate::orderbook::OrderBook;

verus! {

/// A depth snapshot of one book: the top price levels of each side with
/// their exact total resting quantities, best price first. Prices and
/// amounts are in the book's integer minor units; the caller supplies the
/// capture timestamp.
#[derive(Debug)]
pub struct OrderBookSnapshot {
    pub symbol: String,
    pub bids: Vec<(u64, u128)>,
    pub asks: Vec<(u64, u128)>,
    pub timestamp: u64,
}

impl OrderBookSnapshot {
    /// Captures the top `limit` levels of both sides of a book.
    pub fn capture(symbol: &str, book: &OrderBook, limit: usize, timestamp: u64) -> (r:
        OrderBookSnapshot)
        requires
            book.wf(),
        ensures
            r.symbol@ == symbol@,
            r.bids@ == depth_view(book@.bids, limit as int),
            r.asks@ == depth_view(book@.asks, limit as int),
            r.timestamp == timestamp,
    {
        OrderBookSnapshot {
            symbol: symbol.to_owned(),
            bids: book.get_depth(limit, true),
            asks: book.get_depth(limit, false),
            timestamp,
        }
    }
}

} // verus!
