//! The order book for one symbol: the two tradable sides, the dormant
//! stop-order books, the order-location index used for cancellation, the
//! last traded price, and the engine-lifetime trade-id counter.

use std::collections::HashMap;
use vstd::prelude::*;

use crate::levels::{
    add_to_side, cancel_on_side, depth_view, file_order, filed, found_at, lemma_cancel_absent,
    lemma_total_add_to_side, level_has_id, level_qty, level_wf, order_fits, price_better,
    side_descending, side_has_id, side_view, side_wf, stored_at, total_orders, unfile_order,
    unfiled, Level, LevelModel,
};
use crate::levels::{first_ge, lemma_first_ge, lemma_total_pop_at, lemma_unfiled, pop_at};
use crate::matching::{
    lemma_spec_match_count,
    crosses, lemma_match_step_consume, lemma_match_step_partial, lemma_trade_total_push,
    make_trade, spec_match, trade_total,
};
use crate::models::{Order, OrderType, Side, Trade};

verus! {

/// Where a stored order can be found: its side, its level key (the resting
/// price, or the trigger price while dormant), and whether it is dormant.
#[derive(Clone, Copy, PartialEq, Eq, Structural, Debug)]
pub struct OrderLocation {
    pub side: Side,
    pub price: u64,
    pub dormant: bool,
}

/// The mathematical content of a whole book.
#[verifier::ext_equal]
pub struct BookModel {
    pub bids: Seq<LevelModel>,
    pub asks: Seq<LevelModel>,
    pub stop_bids: Seq<LevelModel>,
    pub stop_asks: Seq<LevelModel>,
    pub last_price: Option<u64>,
    pub next_trade_id: int,
}

impl BookModel {
    /// The container a location refers to.
    pub open spec fn container(self, side: Side, dormant: bool) -> Seq<LevelModel> {
        match (side, dormant) {
            (Side::Bid, false) => self.bids,
            (Side::Ask, false) => self.asks,
            (Side::Bid, true) => self.stop_bids,
            (Side::Ask, true) => self.stop_asks,
        }
    }

    /// Whether an order with this id is stored anywhere in the book,
    /// resting or dormant.
    pub open spec fn has_id(self, id: u64) -> bool {
        ||| side_has_id(self.bids, id)
        ||| side_has_id(self.asks, id)
        ||| side_has_id(self.stop_bids, id)
        ||| side_has_id(self.stop_asks, id)
    }

    /// Whether an order with this id rests in the tradable book.
    pub open spec fn rests(self, id: u64) -> bool {
        side_has_id(self.bids, id) || side_has_id(self.asks, id)
    }

    /// Whether an order with this id is dormant in a stop book.
    pub open spec fn dormant(self, id: u64) -> bool {
        side_has_id(self.stop_bids, id) || side_has_id(self.stop_asks, id)
    }

    /// The four containers are individually well formed.
    pub open spec fn sides_wf(self) -> bool {
        &&& side_wf(self.bids, Side::Bid, false)
        &&& side_wf(self.asks, Side::Ask, false)
        &&& side_wf(self.stop_bids, Side::Bid, true)
        &&& side_wf(self.stop_asks, Side::Ask, true)
    }

    /// How many orders the book stores in all, resting and dormant.
    pub open spec fn stored_orders(self) -> int {
        total_orders(self.bids) + total_orders(self.asks) + total_orders(self.stop_bids)
            + total_orders(self.stop_asks) as int
    }

    /// Room left in the trade-id counter for the most trades one call to
    /// `process_order` could emit: every stored order could be consumed,
    /// every dormant order could fire and end a pass with one partial
    /// fill, and the incoming order's own pass can end with one more.
    pub open spec fn id_budget_ok(self) -> bool {
        self.next_trade_id + self.stored_orders() + total_orders(self.stop_bids) + total_orders(
            self.stop_asks,
        ) + 1 <= u64::MAX
    }
}

/// Every order stored on side `s` is indexed in `locs` under its id, at
/// its level's key.
pub open spec fn locs_cover_side(
    s: Seq<LevelModel>,
    side: Side,
    dormant: bool,
    locs: Map<u64, OrderLocation>,
) -> bool {
    forall|i: int, j: int|
        0 <= i < s.len() && 0 <= j < s[i].orders.len() ==> {
            &&& locs.contains_key((#[trigger] s[i].orders[j]).id)
            &&& locs[s[i].orders[j].id] == OrderLocation { side, price: s[i].price, dormant }
        }
}

/// Every id in the index is actually stored where the index says.
pub open spec fn locs_sound(m: BookModel, locs: Map<u64, OrderLocation>) -> bool {
    forall|id: u64| #[trigger]
        locs.contains_key(id) ==> found_at(
            m.container(locs[id].side, locs[id].dormant),
            locs[id].price,
            id,
        )
}

/// The model of a freshly created book.
pub open spec fn empty_book() -> BookModel {
    BookModel {
        bids: Seq::<LevelModel>::empty(),
        asks: Seq::<LevelModel>::empty(),
        stop_bids: Seq::<LevelModel>::empty(),
        stop_asks: Seq::<LevelModel>::empty(),
        last_price: None,
        next_trade_id: 1,
    }
}

/// A book after the order with `id` is cancelled, wherever it was stored.
pub open spec fn cancel_book_model(m: BookModel, id: u64) -> BookModel {
    BookModel {
        bids: cancel_on_side(m.bids, id),
        asks: cancel_on_side(m.asks, id),
        stop_bids: cancel_on_side(m.stop_bids, id),
        stop_asks: cancel_on_side(m.stop_asks, id),
        ..m
    }
}

/// The index covers all four containers.
pub open spec fn book_cover(m: BookModel, locs: Map<u64, OrderLocation>) -> bool {
    &&& locs_cover_side(m.bids, Side::Bid, false, locs)
    &&& locs_cover_side(m.asks, Side::Ask, false, locs)
    &&& locs_cover_side(m.stop_bids, Side::Bid, true, locs)
    &&& locs_cover_side(m.stop_asks, Side::Ask, true, locs)
}

/// Filing one order into a container and indexing it re-establishes the
/// whole book's invariant and grows the stored ids by exactly that order.
proof fn lemma_book_filed(
    m0: BookModel,
    m1: BookModel,
    locs0: Map<u64, OrderLocation>,
    locs1: Map<u64, OrderLocation>,
    order: Order,
    key: u64,
    side: Side,
    dormant: bool,
)
    requires
        m0.sides_wf(),
        book_cover(m0, locs0),
        locs_sound(m0, locs0),
        !m0.has_id(order.id),
        order_fits(order, side, key, dormant),
        locs1 == locs0.insert(order.id, OrderLocation { side, price: key, dormant }),
        filed(m0.container(side, dormant), m1.container(side, dormant), key, order, side, dormant),
        forall|s2: Side, d2: bool|
            !(s2 == side && d2 == dormant) ==> #[trigger] m1.container(s2, d2) == m0.container(
                s2,
                d2,
            ),
    ensures
        m1.sides_wf(),
        book_cover(m1, locs1),
        locs_sound(m1, locs1),
        forall|x: u64| m1.has_id(x) == (m0.has_id(x) || x == order.id),
{
    let c0 = m0.container(side, dormant);
    let c1 = m1.container(side, dormant);
    let loc = OrderLocation { side, price: key, dormant };

    assert(m1.container(Side::Bid, false) == m1.bids);
    assert(m1.container(Side::Ask, false) == m1.asks);
    assert(m1.container(Side::Bid, true) == m1.stop_bids);
    assert(m1.container(Side::Ask, true) == m1.stop_asks);
    assert(m0.container(Side::Bid, false) == m0.bids);
    assert(m0.container(Side::Ask, false) == m0.asks);
    assert(m0.container(Side::Bid, true) == m0.stop_bids);
    assert(m0.container(Side::Ask, true) == m0.stop_asks);

    // Each untouched container keeps its well-formedness and its cover:
    // none of its orders can carry the new id.
    assert forall|s2: Side, d2: bool| !(s2 == side && d2 == dormant) implies side_wf(
        m1.container(s2, d2),
        s2,
        d2,
    ) && locs_cover_side(m1.container(s2, d2), s2, d2, locs1) by {
        let c = m0.container(s2, d2);
        assert(side_wf(c, s2, d2));
        assert forall|i: int, j: int|
            0 <= i < c.len() && 0 <= j < c[i].orders.len() implies {
            &&& locs1.contains_key((#[trigger] c[i].orders[j]).id)
            &&& locs1[c[i].orders[j].id] == OrderLocation { side: s2, price: c[i].price, dormant: d2 }
        } by {
            if c[i].orders[j].id == order.id {
                assert(level_has_id(c[i], order.id));
                assert(side_has_id(c, order.id));
                assert(m0.has_id(order.id));
            }
        }
    }

    // The updated container: every order is the new one, indexed by the
    // fresh entry, or an old one, whose entry survived the insert.
    assert(locs_cover_side(c1, side, dormant, locs1)) by {
        assert forall|i: int, j: int|
            0 <= i < c1.len() && 0 <= j < c1[i].orders.len() implies {
            &&& locs1.contains_key((#[trigger] c1[i].orders[j]).id)
            &&& locs1[c1[i].orders[j].id] == OrderLocation {
                side,
                price: c1[i].price,
                dormant,
            }
        } by {
            let o = c1[i].orders[j];
            if o == order && c1[i].price == key {
            } else {
                assert(stored_at(c0, c1[i].price, o));
                let (i2, j2) = choose|i2: int, j2: int|
                    0 <= i2 < c0.len() && 0 <= j2 < c0[i2].orders.len() && c0[i2].price
                        == c1[i].price && (#[trigger] c0[i2].orders[j2]) == o;
                assert(locs0.contains_key(o.id));
                assert(locs0[o.id] == OrderLocation { side, price: c0[i2].price, dormant });
                if o.id == order.id {
                    assert(level_has_id(c0[i2], order.id));
                    assert(side_has_id(c0, order.id));
                    assert(m0.has_id(order.id));
                }
            }
        }
    }

    // Soundness: the fresh entry points at the new order; every old entry
    // still points at its order, which the filing kept in place.
    assert(locs_sound(m1, locs1)) by {
        assert forall|id: u64| #[trigger] locs1.contains_key(id) implies found_at(
            m1.container(locs1[id].side, locs1[id].dormant),
            locs1[id].price,
            id,
        ) by {
            if id == order.id {
                assert(found_at(c1, key, order.id));
            } else {
                assert(locs0.contains_key(id));
                assert(locs1[id] == locs0[id]);
                let c_old = m0.container(locs0[id].side, locs0[id].dormant);
                assert(found_at(c_old, locs0[id].price, id));
                if locs0[id].side == side && locs0[id].dormant == dormant {
                    assert(found_at(c1, locs0[id].price, id));
                } else {
                    assert(m1.container(locs0[id].side, locs0[id].dormant) == c_old);
                }
            }
        }
    }

    assert forall|x: u64| m1.has_id(x) == (m0.has_id(x) || x == order.id) by {
        assert(side_has_id(c1, x) == (side_has_id(c0, x) || x == order.id));
    }
}

/// Taking one order out of a container and unindexing it re-establishes
/// the whole book's invariant and shrinks the stored ids by exactly that id.
proof fn lemma_book_unfiled(
    m0: BookModel,
    m1: BookModel,
    locs0: Map<u64, OrderLocation>,
    locs1: Map<u64, OrderLocation>,
    id: u64,
    side: Side,
    dormant: bool,
)
    requires
        m0.sides_wf(),
        book_cover(m0, locs0),
        locs_sound(m0, locs0),
        locs0.contains_key(id),
        locs0[id] == (OrderLocation { side, price: locs0[id].price, dormant }),
        locs1 == locs0.remove(id),
        unfiled(m0.container(side, dormant), m1.container(side, dormant), id, side, dormant),
        forall|s2: Side, d2: bool|
            !(s2 == side && d2 == dormant) ==> #[trigger] m1.container(s2, d2) == m0.container(
                s2,
                d2,
            ),
    ensures
        m1.sides_wf(),
        book_cover(m1, locs1),
        locs_sound(m1, locs1),
        forall|x: u64| m1.has_id(x) == (m0.has_id(x) && x != id),
        forall|s2: Side, d2: bool|
            !(s2 == side && d2 == dormant) ==> !side_has_id(#[trigger] m0.container(s2, d2), id),
{
    let c0 = m0.container(side, dormant);
    let c1 = m1.container(side, dormant);

    assert(m1.container(Side::Bid, false) == m1.bids);
    assert(m1.container(Side::Ask, false) == m1.asks);
    assert(m1.container(Side::Bid, true) == m1.stop_bids);
    assert(m1.container(Side::Ask, true) == m1.stop_asks);
    assert(m0.container(Side::Bid, false) == m0.bids);
    assert(m0.container(Side::Ask, false) == m0.asks);
    assert(m0.container(Side::Bid, true) == m0.stop_bids);
    assert(m0.container(Side::Ask, true) == m0.stop_asks);

    // No other container stores the id: its index entry pins side and
    // dormancy down.
    assert forall|s2: Side, d2: bool| !(s2 == side && d2 == dormant) implies !side_has_id(
        #[trigger] m0.container(s2, d2),
        id,
    ) by {
        let c = m0.container(s2, d2);
        if side_has_id(c, id) {
            let w = choose|w: int| 0 <= w < c.len() && level_has_id(#[trigger] c[w], id);
            let j = choose|j: int| 0 <= j < c[w].orders.len() && (#[trigger] c[w].orders[j]).id == id;
            assert(locs0[c[w].orders[j].id] == OrderLocation { side: s2, price: c[w].price, dormant: d2 });
        }
    }

    // Untouched containers stay well formed and covered.
    assert forall|s2: Side, d2: bool| !(s2 == side && d2 == dormant) implies side_wf(
        m1.container(s2, d2),
        s2,
        d2,
    ) && locs_cover_side(m1.container(s2, d2), s2, d2, locs1) by {
        let c = m0.container(s2, d2);
        assert(side_wf(c, s2, d2));
        assert forall|i: int, j: int|
            0 <= i < c.len() && 0 <= j < c[i].orders.len() implies {
            &&& locs1.contains_key((#[trigger] c[i].orders[j]).id)
            &&& locs1[c[i].orders[j].id] == OrderLocation { side: s2, price: c[i].price, dormant: d2 }
        } by {
            if c[i].orders[j].id == id {
                assert(level_has_id(c[i], id));
                assert(side_has_id(c, id));
            }
        }
    }

    // The shrunk container: every surviving order kept its entry.
    assert(locs_cover_side(c1, side, dormant, locs1)) by {
        assert forall|i: int, j: int|
            0 <= i < c1.len() && 0 <= j < c1[i].orders.len() implies {
            &&& locs1.contains_key((#[trigger] c1[i].orders[j]).id)
            &&& locs1[c1[i].orders[j].id] == OrderLocation { side, price: c1[i].price, dormant }
        } by {
            let o = c1[i].orders[j];
            assert(stored_at(c0, c1[i].price, o) && o.id != id);
            let (i2, j2) = choose|i2: int, j2: int|
                0 <= i2 < c0.len() && 0 <= j2 < c0[i2].orders.len() && c0[i2].price == c1[i].price
                    && (#[trigger] c0[i2].orders[j2]) == o;
            assert(locs0.contains_key(o.id));
            assert(locs0[o.id] == OrderLocation { side, price: c0[i2].price, dormant });
        }
    }

    // Soundness: all remaining entries still point at stored orders.
    assert(locs_sound(m1, locs1)) by {
        assert forall|x: u64| #[trigger] locs1.contains_key(x) implies found_at(
            m1.container(locs1[x].side, locs1[x].dormant),
            locs1[x].price,
            x,
        ) by {
            assert(x != id);
            assert(locs0.contains_key(x) && locs1[x] == locs0[x]);
            let c_old = m0.container(locs0[x].side, locs0[x].dormant);
            assert(found_at(c_old, locs0[x].price, x));
            if locs0[x].side == side && locs0[x].dormant == dormant {
                assert(found_at(c1, locs0[x].price, x));
            } else {
                assert(m1.container(locs0[x].side, locs0[x].dormant) == c_old);
            }
        }
    }

    assert forall|x: u64| m1.has_id(x) == (m0.has_id(x) && x != id) by {
        assert(side_has_id(c1, x) == (side_has_id(c0, x) && x != id));
        if x == id && m0.has_id(id) {
            assert(!side_has_id(c1, id));
        }
    }
}

/// The order book for one symbol.
///
/// Prices and amounts are exact fixed-point values in integer minor units.
/// Trade ids are drawn from a counter that never restarts while the book
/// lives, so they are unique and strictly increasing across calls.
#[derive(Debug)]
pub struct OrderBook {
    bids: Vec<Level>,
    asks: Vec<Level>,
    order_locations: HashMap<u64, OrderLocation>,
    stop_bids: Vec<Level>,
    stop_asks: Vec<Level>,
    last_price: Option<u64>,
    next_trade_id: u64,
}

impl View for OrderBook {
    type V = BookModel;

    closed spec fn view(&self) -> BookModel {
        BookModel {
            bids: side_view(self.bids@),
            asks: side_view(self.asks@),
            stop_bids: side_view(self.stop_bids@),
            stop_asks: side_view(self.stop_asks@),
            last_price: self.last_price,
            next_trade_id: self.next_trade_id as int,
        }
    }
}

impl OrderBook {
    /// The location index matches the book's contents exactly.
    pub closed spec fn locs_ok(&self) -> bool {
        &&& book_cover(self@, self.order_locations@)
        &&& locs_sound(self@, self.order_locations@)
    }

    /// The book's invariant: all four containers well formed, and the
    /// location index in exact correspondence with them.
    pub open spec fn wf(&self) -> bool {
        &&& self@.sides_wf()
        &&& self.locs_ok()
    }

    /// An empty book. The trade-id counter starts at 1.
    pub fn new() -> (r: OrderBook)
        ensures
            r.wf(),
            r@.bids == Seq::<LevelModel>::empty(),
            r@.asks == Seq::<LevelModel>::empty(),
            r@.stop_bids == Seq::<LevelModel>::empty(),
            r@.stop_asks == Seq::<LevelModel>::empty(),
            r@.last_price is None,
            r@.next_trade_id == 1,
            r@ == empty_book(),
            r@.id_budget_ok(),
    {
        let r = OrderBook {
            bids: Vec::new(),
            asks: Vec::new(),
            order_locations: HashMap::new(),
            stop_bids: Vec::new(),
            stop_asks: Vec::new(),
            last_price: None,
            next_trade_id: 1,
        };
        proof {
            assert(r@.bids =~= Seq::<LevelModel>::empty());
            assert(r@.asks =~= Seq::<LevelModel>::empty());
            assert(r@.stop_bids =~= Seq::<LevelModel>::empty());
            assert(r@.stop_asks =~= Seq::<LevelModel>::empty());
            assert(r@ =~= empty_book());
        }
        r
    }

    /// The best (highest) bid price, if any bid rests.
    pub fn get_best_bid(&self) -> (r: Option<u64>)
        requires
            self.wf(),
        ensures
            r == if self@.bids.len() == 0 {
                Option::<u64>::None
            } else {
                Some(self@.bids[0].price)
            },
            forall|i: int| 0 <= i < self@.bids.len() ==> (#[trigger] self@.bids[i]).price <= r.unwrap(),
    {
        proof {
            if self@.bids.len() > 0 {
                assert forall|i: int|
                    0 <= i < self@.bids.len() implies (#[trigger] self@.bids[i]).price
                    <= self@.bids[0].price by {
                    if i > 0 {
                        assert(self@.bids[0].price > self@.bids[i].price);
                    }
                }
            }
        }
        if self.bids.len() == 0 {
            None
        } else {
            Some(self.bids[0].price)
        }
    }

    /// The best (lowest) ask price, if any ask rests.
    pub fn get_best_ask(&self) -> (r: Option<u64>)
        requires
            self.wf(),
        ensures
            r == if self@.asks.len() == 0 {
                Option::<u64>::None
            } else {
                Some(self@.asks[0].price)
            },
            forall|i: int| 0 <= i < self@.asks.len() ==> (#[trigger] self@.asks[i]).price >= r.unwrap(),
    {
        proof {
            if self@.asks.len() > 0 {
                assert forall|i: int|
                    0 <= i < self@.asks.len() implies (#[trigger] self@.asks[i]).price
                    >= self@.asks[0].price by {
                    if i > 0 {
                        assert(self@.asks[0].price < self@.asks[i].price);
                    }
                }
            }
        }
        if self.asks.len() == 0 {
            None
        } else {
            Some(self.asks[0].price)
        }
    }

    /// Inserts a well-formed Limit order at the tail of its side/price
    /// queue and records its location. Always succeeds; the dormant books,
    /// the last traded price and the trade-id counter are untouched.
    pub fn add_limit_order(&mut self, order: Order)
        requires
            old(self).wf(),
            order.order_type == OrderType::Limit,
            order.amount > 0,
            !old(self)@.has_id(order.id),
        ensures
            final(self).wf(),
            order.side == Side::Bid ==> final(self)@.bids == add_to_side(
                old(self)@.bids,
                order.price,
                order,
                true,
            ) && final(self)@.asks == old(self)@.asks,
            order.side == Side::Ask ==> final(self)@.asks == add_to_side(
                old(self)@.asks,
                order.price,
                order,
                false,
            ) && final(self)@.bids == old(self)@.bids,
            final(self)@.stop_bids == old(self)@.stop_bids,
            final(self)@.stop_asks == old(self)@.stop_asks,
            final(self)@.last_price == old(self)@.last_price,
            final(self)@.next_trade_id == old(self)@.next_trade_id,
            final(self)@.rests(order.id),
            forall|x: u64| final(self)@.has_id(x) == (old(self)@.has_id(x) || x == order.id),
            forall|x: u64| final(self)@.rests(x) == (old(self)@.rests(x) || x == order.id),
            forall|x: u64| final(self)@.dormant(x) == old(self)@.dormant(x),
    {
        let ghost m0 = old(self)@;
        let ghost locs0 = old(self).order_locations@;
        let key = order.price;
        let side = order.side;
        self.order_locations.insert(
            order.id,
            OrderLocation { side, price: key, dormant: false },
        );
        match side {
            Side::Bid => {
                file_order(&mut self.bids, key, order, true, Ghost(Side::Bid), Ghost(false));
            },
            Side::Ask => {
                file_order(&mut self.asks, key, order, false, Ghost(Side::Ask), Ghost(false));
            },
        }
        proof {
            let m1 = self@;
            assert(self.order_locations@ == locs0.insert(
                order.id,
                OrderLocation { side, price: key, dormant: false },
            ));
            assert(filed(m0.container(side, false), m1.container(side, false), key, order, side, false));
            assert forall|s2: Side, d2: bool| !(s2 == side && d2 == false) implies #[trigger] m1
                .container(s2, d2) == m0.container(s2, d2) by {}
            lemma_book_filed(m0, m1, locs0, self.order_locations@, order, key, side, false);
            assert(m1.container(side, false) == if side == Side::Bid {
                m1.bids
            } else {
                m1.asks
            });
            assert(found_at(m1.container(side, false), key, order.id));
            assert(side_has_id(m1.container(side, false), order.id)) by {
                let c = m1.container(side, false);
                let w = choose|w: int|
                    0 <= w < c.len() && (#[trigger] c[w]).price == key && level_has_id(c[w], order.id);
                assert(level_has_id(c[w], order.id));
            }
            assert forall|x: u64| m1.rests(x) == (m0.rests(x) || x == order.id) by {
                assert(side_has_id(
                    m1.container(side, false),
                    x,
                ) == (side_has_id(m0.container(side, false), x) || x == order.id));
                assert(m1.container(side.opposite(), false) == m0.container(side.opposite(), false));
            }
            assert forall|x: u64| m1.dormant(x) == m0.dormant(x) by {
                assert(m1.container(Side::Bid, true) == m0.container(Side::Bid, true));
                assert(m1.container(Side::Ask, true) == m0.container(Side::Ask, true));
            }
        }
    }

    /// Files a StopLimit order into the dormant book keyed by its trigger
    /// price, recording its location; an order without a trigger price is
    /// rejected with no state change. No trade is ever produced here.
    fn add_stop_order(&mut self, order: Order) -> (r: Vec<Trade>)
        requires
            old(self).wf(),
            order.order_type == OrderType::StopLimit,
            order.amount > 0,
            !old(self)@.has_id(order.id),
        ensures
            final(self).wf(),
            r@ == Seq::<Trade>::empty(),
            order.trigger_price is None ==> final(self)@ == old(self)@ && *final(self) == *old(self),
            order.trigger_price matches Some(t) ==> {
                &&& order.side == Side::Bid ==> final(self)@.stop_bids == add_to_side(
                    old(self)@.stop_bids,
                    t,
                    order,
                    false,
                ) && final(self)@.stop_asks == old(self)@.stop_asks
                &&& order.side == Side::Ask ==> final(self)@.stop_asks == add_to_side(
                    old(self)@.stop_asks,
                    t,
                    order,
                    false,
                ) && final(self)@.stop_bids == old(self)@.stop_bids
                &&& final(self)@.dormant(order.id)
            },
            final(self)@.bids == old(self)@.bids,
            final(self)@.asks == old(self)@.asks,
            final(self)@.last_price == old(self)@.last_price,
            final(self)@.next_trade_id == old(self)@.next_trade_id,
            forall|x: u64|
                final(self)@.has_id(x) == (old(self)@.has_id(x) || (order.trigger_price is Some && x
                    == order.id)),
            forall|x: u64| final(self)@.rests(x) == (old(self)@.rests(x)),
    {
        let ghost m0 = old(self)@;
        let ghost locs0 = old(self).order_locations@;
        if let Some(trigger) = order.trigger_price {
            let side = order.side;
            self.order_locations.insert(
                order.id,
                OrderLocation { side, price: trigger, dormant: true },
            );
            match side {
                Side::Bid => {
                    file_order(
                        &mut self.stop_bids,
                        trigger,
                        order,
                        false,
                        Ghost(Side::Bid),
                        Ghost(true),
                    );
                },
                Side::Ask => {
                    file_order(
                        &mut self.stop_asks,
                        trigger,
                        order,
                        false,
                        Ghost(Side::Ask),
                        Ghost(true),
                    );
                },
            }
            proof {
                let m1 = self@;
                assert(self.order_locations@ == locs0.insert(
                    order.id,
                    OrderLocation { side, price: trigger, dormant: true },
                ));
                assert(filed(
                    m0.container(side, true),
                    m1.container(side, true),
                    trigger,
                    order,
                    side,
                    true,
                ));
                assert forall|s2: Side, d2: bool| !(s2 == side && d2 == true) implies #[trigger] m1
                    .container(s2, d2) == m0.container(s2, d2) by {}
                lemma_book_filed(m0, m1, locs0, self.order_locations@, order, trigger, side, true);
                assert(found_at(m1.container(side, true), trigger, order.id));
                assert(side_has_id(m1.container(side, true), order.id)) by {
                    let c = m1.container(side, true);
                    let w = choose|w: int|
                        0 <= w < c.len() && (#[trigger] c[w]).price == trigger && level_has_id(
                            c[w],
                            order.id,
                        );
                    assert(level_has_id(c[w], order.id));
                }
                assert forall|x: u64| m1.rests(x) == m0.rests(x) by {
                    assert(m1.container(Side::Bid, false) == m0.container(Side::Bid, false));
                    assert(m1.container(Side::Ask, false) == m0.container(Side::Ask, false));
                }
            }
        }
        Vec::new()
    }

    /// Cancels the stored order with this id, resting or dormant: looks its
    /// location up in the index, removes it from its side/price queue, and
    /// drops the level once empty. Returns false, with the book untouched,
    /// when no such order is stored — a normal outcome, not an error.
    pub fn cancel_order(&mut self, order_id: u64) -> (r: bool)
        requires
            old(self).wf(),
        ensures
            final(self).wf(),
            r == old(self)@.has_id(order_id),
            !final(self)@.has_id(order_id),
            final(self)@.bids == cancel_on_side(old(self)@.bids, order_id),
            final(self)@.asks == cancel_on_side(old(self)@.asks, order_id),
            final(self)@.stop_bids == cancel_on_side(old(self)@.stop_bids, order_id),
            final(self)@.stop_asks == cancel_on_side(old(self)@.stop_asks, order_id),
            final(self)@.last_price == old(self)@.last_price,
            final(self)@.next_trade_id == old(self)@.next_trade_id,
            final(self)@ == cancel_book_model(old(self)@, order_id),
            forall|x: u64| x != order_id ==> final(self)@.has_id(x) == old(self)@.has_id(x),
            !r ==> *final(self) == *old(self),
    {
        let ghost m0 = old(self)@;
        let ghost locs0 = old(self).order_locations@;
        let loc: OrderLocation = match self.order_locations.get(&order_id) {
            None => {
                proof {
                    assert(!m0.has_id(order_id)) by {
                        if side_has_id(m0.bids, order_id) {
                            lemma_membership_indexed(m0.bids, Side::Bid, false, locs0, order_id);
                        }
                        if side_has_id(m0.asks, order_id) {
                            lemma_membership_indexed(m0.asks, Side::Ask, false, locs0, order_id);
                        }
                        if side_has_id(m0.stop_bids, order_id) {
                            lemma_membership_indexed(m0.stop_bids, Side::Bid, true, locs0, order_id);
                        }
                        if side_has_id(m0.stop_asks, order_id) {
                            lemma_membership_indexed(m0.stop_asks, Side::Ask, true, locs0, order_id);
                        }
                    }
                    lemma_cancel_absent(m0.bids, order_id);
                    lemma_cancel_absent(m0.asks, order_id);
                    lemma_cancel_absent(m0.stop_bids, order_id);
                    lemma_cancel_absent(m0.stop_asks, order_id);
                    assert(self@ =~= cancel_book_model(m0, order_id));
                }
                return false;
            },
            Some(l) => *l,
        };
        proof {
            assert(locs0.contains_key(order_id) && locs0[order_id] == loc);
            assert(found_at(m0.container(loc.side, loc.dormant), loc.price, order_id));
            assert(side_has_id(m0.container(loc.side, loc.dormant), order_id)) by {
                let c = m0.container(loc.side, loc.dormant);
                let w = choose|w: int|
                    0 <= w < c.len() && (#[trigger] c[w]).price == loc.price && level_has_id(
                        c[w],
                        order_id,
                    );
                assert(level_has_id(c[w], order_id));
            }
            assert(m0.has_id(order_id));
            // Every level storing the id sits at the indexed key.
            let c = m0.container(loc.side, loc.dormant);
            assert forall|i: int| 0 <= i < c.len() && level_has_id(#[trigger] c[i], order_id)
                implies c[i].price == loc.price by {
                let j = choose|j: int|
                    0 <= j < c[i].orders.len() && (#[trigger] c[i].orders[j]).id == order_id;
                assert(locs0[c[i].orders[j].id] == OrderLocation {
                    side: loc.side,
                    price: c[i].price,
                    dormant: loc.dormant,
                });
            }
        }
        self.order_locations.remove(&order_id);
        match (loc.side, loc.dormant) {
            (Side::Bid, false) => {
                unfile_order(&mut self.bids, loc.price, order_id, Ghost(Side::Bid), Ghost(false));
            },
            (Side::Ask, false) => {
                unfile_order(&mut self.asks, loc.price, order_id, Ghost(Side::Ask), Ghost(false));
            },
            (Side::Bid, true) => {
                unfile_order(
                    &mut self.stop_bids,
                    loc.price,
                    order_id,
                    Ghost(Side::Bid),
                    Ghost(true),
                );
            },
            (Side::Ask, true) => {
                unfile_order(
                    &mut self.stop_asks,
                    loc.price,
                    order_id,
                    Ghost(Side::Ask),
                    Ghost(true),
                );
            },
        }
        proof {
            let m1 = self@;
            assert(self.order_locations@ == locs0.remove(order_id));
            assert(unfiled(
                m0.container(loc.side, loc.dormant),
                m1.container(loc.side, loc.dormant),
                order_id,
                loc.side,
                loc.dormant,
            ));
            assert forall|s2: Side, d2: bool| !(s2 == loc.side && d2 == loc.dormant)
                implies #[trigger] m1.container(s2, d2) == m0.container(s2, d2) by {}
            lemma_book_unfiled(
                m0,
                m1,
                locs0,
                self.order_locations@,
                order_id,
                loc.side,
                loc.dormant,
            );
            assert forall|s2: Side, d2: bool| !(s2 == loc.side && d2 == loc.dormant)
                implies #[trigger] m1.container(s2, d2) == cancel_on_side(
                m0.container(s2, d2),
                order_id,
            ) by {
                lemma_cancel_absent(m0.container(s2, d2), order_id);
            }
            assert(m1.bids == cancel_on_side(m0.bids, order_id));
            assert(m1.asks == cancel_on_side(m0.asks, order_id));
            assert(m1.stop_bids == cancel_on_side(m0.stop_bids, order_id));
            assert(m1.stop_asks == cancel_on_side(m0.stop_asks, order_id));
            assert(m1 =~= cancel_book_model(m0, order_id));
        }
        true
    }

    /// One matching pass of a Limit or Market taker: match against the
    /// opposite side best-price-first, move the last traded price to each
    /// trade in turn, and rest a Limit remainder on its own side. A Market
    /// remainder is discarded. Exactly `spec_match_pass`.
    fn match_pass(&mut self, order: Order) -> (trades: Vec<Trade>)
        requires
            old(self).wf(),
            order.order_type != OrderType::StopLimit,
            order.amount > 0,
            !old(self)@.has_id(order.id),
            old(self)@.next_trade_id + total_orders(
                if order.side == Side::Bid {
                    old(self)@.asks
                } else {
                    old(self)@.bids
                },
            ) + 1 <= u64::MAX,
        ensures
            final(self).wf(),
            trades@ == spec_match_pass(old(self)@, order).0,
            final(self)@ == spec_match_pass(old(self)@, order).1,
            forall|x: u64| #[trigger]
                final(self)@.has_id(x) ==> old(self)@.has_id(x) || x == order.id,
            order.order_type == OrderType::Market ==> !final(self)@.has_id(order.id),
            final(self)@.next_trade_id + (total_orders(final(self)@.bids) + total_orders(
                final(self)@.asks,
            )) <= old(self)@.next_trade_id + (total_orders(old(self)@.bids) + total_orders(
                old(self)@.asks,
            )) + 1,
    {
        let ghost m0 = self@;
        let ghost locs0 = self.order_locations@;
        let ghost o0 = order;
        let ghost lside = order.side.opposite();
        let ghost opp0 = if order.side == Side::Bid {
            m0.asks
        } else {
            m0.bids
        };
        let mut taker = order;
        let mut trades: Vec<Trade> = Vec::new();
        match taker.side {
            Side::Bid => {
                match_levels(
                    &mut self.asks,
                    &mut self.order_locations,
                    &mut taker,
                    &mut self.next_trade_id,
                    &mut trades,
                    Ghost(Side::Ask),
                );
            },
            Side::Ask => {
                match_levels(
                    &mut self.bids,
                    &mut self.order_locations,
                    &mut taker,
                    &mut self.next_trade_id,
                    &mut trades,
                    Ghost(Side::Bid),
                );
            },
        }
        let ghost r = spec_match(opp0, o0, m0.next_trade_id);
        proof {
            lemma_spec_match_count(opp0, o0, m0.next_trade_id);
            assert(trades@ =~= r.0);
        }
        if trades.len() > 0 {
            let lastp = trades[trades.len() - 1].price;
            self.last_price = Some(lastp);
        }
        proof {
            let m_mid = self@;
            assert(matched_side(
                m0.container(lside, false),
                m_mid.container(lside, false),
                locs0,
                self.order_locations@,
                lside,
            ));
            assert forall|s2: Side, d2: bool| !(s2 == lside && d2 == false)
                implies #[trigger] m_mid.container(s2, d2) == m0.container(s2, d2) by {}
            lemma_book_matched(m0, m_mid, locs0, self.order_locations@, lside);
        }
        let ghost m_mid = self@;
        let ghost tk = taker;
        if taker.amount > 0 && taker.order_type == OrderType::Limit {
            proof {
                assert(!m_mid.has_id(tk.id)) by {
                    if m_mid.has_id(o0.id) {
                        assert(m0.has_id(o0.id));
                    }
                }
            }
            self.add_limit_order(taker);
        }
        proof {
            let mp = spec_match_pass(m0, o0);
            let leftover = o0.amount - trade_total(r.0);
            assert(tk == Order { amount: leftover as u64, ..o0 });
            assert(self@ =~= mp.1);
            assert forall|x: u64| #[trigger] self@.has_id(x) implies m0.has_id(x) || x
                == o0.id by {
                if self@.has_id(x) && x != o0.id {
                    assert(m_mid.has_id(x));
                }
            }
            if leftover > 0 && o0.order_type == OrderType::Limit {
                if o0.side == Side::Bid {
                    lemma_total_add_to_side(m_mid.bids, o0.price, tk, true);
                } else {
                    lemma_total_add_to_side(m_mid.asks, o0.price, tk, false);
                }
            }
            if o0.order_type == OrderType::Market {
                assert(!self@.has_id(o0.id)) by {
                    if self@.has_id(o0.id) {
                        assert(m_mid.has_id(o0.id));
                        assert(m0.has_id(o0.id));
                    }
                }
            }
        }
        trades
    }

    /// Market depth: the top `limit` price levels of the requested side,
    /// best price first, each with the exact sum of its resting quantities.
    #[verifier::loop_isolation(false)]
    pub fn get_depth(&self, limit: usize, is_bid: bool) -> (r: Vec<(u64, u128)>)
        requires
            self.wf(),
        ensures
            r@ == depth_view(
                if is_bid {
                    self@.bids
                } else {
                    self@.asks
                },
                limit as int,
            ),
            forall|i: int, j: int|
                0 <= i < j < r@.len() ==> price_better(
                    (#[trigger] r@[i]).0,
                    (#[trigger] r@[j]).0,
                    is_bid,
                ),
    {
        let ghost s = if is_bid {
            self@.bids
        } else {
            self@.asks
        };
        let levels: &Vec<Level> = if is_bid {
            &self.bids
        } else {
            &self.asks
        };
        let mut r: Vec<(u64, u128)> = Vec::new();
        let mut i: usize = 0;
        while i < levels.len() && i < limit
            invariant
                0 <= i <= levels.len(),
                i <= limit,
                r@.len() == i,
                forall|k: int|
                    0 <= k < i ==> (#[trigger] r@[k]) == (s[k].price, level_qty(s[k]) as u128),
            decreases levels.len() - i,
        {
            proof {
                assert(s[i as int] == levels@[i as int]@);
                assert(level_wf(s[i as int], if is_bid {
                    Side::Bid
                } else {
                    Side::Ask
                }, false));
            }
            let lvl = &levels[i];
            let ghost os = s[i as int].orders;
            let mut total: u128 = 0;
            let mut j: usize = 0;
            while j < lvl.orders.len()
                invariant
                    0 <= j <= os.len(),
                    total as int == crate::levels::qty_sum(os.take(j as int)),
                decreases os.len() - j,
            {
                proof {
                    crate::levels::lemma_qty_sum_bounds(os.take(j as int));
                    assert((j as int) * (u64::MAX as int) + (u64::MAX as int) == ((j as int) + 1)
                        * (u64::MAX as int)) by (nonlinear_arith);
                    assert(((j as int) + 1) * (u64::MAX as int) <= 0x10000000000000000
                        * (u64::MAX as int)) by (nonlinear_arith)
                        requires
                            (j as int) + 1 <= 0x10000000000000000,
                    ;
                    assert(os.take(j as int + 1) =~= os.take(j as int).push(os[j as int]));
                    crate::levels::lemma_qty_sum_push(os.take(j as int), os[j as int]);
                }
                total = total + (lvl.orders[j].amount as u128);
                j += 1;
            }
            proof {
                assert(os.take(os.len() as int) =~= os);
                assert(total as int == level_qty(s[i as int]));
            }
            r.push((lvl.price, total));
            i += 1;
        }
        proof {
            assert(r@ =~= depth_view(s, limit as int));
            assert forall|a: int, b: int| 0 <= a < b < r@.len() implies price_better(
                (#[trigger] r@[a]).0,
                (#[trigger] r@[b]).0,
                is_bid,
            ) by {
                assert(r@[a].0 == s[a].price && r@[b].0 == s[b].price);
                assert(price_better(s[a].price, s[b].price, if is_bid {
                    side_descending(Side::Bid)
                } else {
                    side_descending(Side::Ask)
                }));
            }
        }
        r
    }

    /// Whether an order with this id is stored in the book, resting or
    /// dormant: an O(1) probe of the location index.
    pub fn has_order(&self, order_id: u64) -> (r: bool)
        requires
            self.wf(),
        ensures
            r == self@.has_id(order_id),
    {
        let r = self.order_locations.contains_key(&order_id);
        proof {
            let locs = self.order_locations@;
            if locs.contains_key(order_id) {
                let loc = locs[order_id];
                let c = self@.container(loc.side, loc.dormant);
                assert(found_at(c, loc.price, order_id));
                assert(side_has_id(c, order_id)) by {
                    let w = choose|w: int|
                        0 <= w < c.len() && (#[trigger] c[w]).price == loc.price && level_has_id(
                            c[w],
                            order_id,
                        );
                    assert(level_has_id(c[w], order_id));
                }
                assert(self@.has_id(order_id));
            } else {
                if side_has_id(self@.bids, order_id) {
                    lemma_membership_indexed(self@.bids, Side::Bid, false, locs, order_id);
                }
                if side_has_id(self@.asks, order_id) {
                    lemma_membership_indexed(self@.asks, Side::Ask, false, locs, order_id);
                }
                if side_has_id(self@.stop_bids, order_id) {
                    lemma_membership_indexed(self@.stop_bids, Side::Bid, true, locs, order_id);
                }
                if side_has_id(self@.stop_asks, order_id) {
                    lemma_membership_indexed(self@.stop_asks, Side::Ask, true, locs, order_id);
                }
            }
        }
        r
    }

    /// Whether `process_order` can accept this order: its id must be fresh
    /// and the trade-id counter must have room for the worst case. Callers
    /// outside verified code use this to test the processing precondition.
    pub fn can_accept(&self, order: &Order) -> (r: bool)
        requires
            self.wf(),
        ensures
            r == (!self@.has_id(order.id) && self@.id_budget_ok()),
    {
        if self.has_order(order.id) {
            return false;
        }
        let cb = match crate::levels::count_side_orders(&self.bids) {
            Some(v) => v,
            None => {
                return false;
            },
        };
        let ca = match crate::levels::count_side_orders(&self.asks) {
            Some(v) => v,
            None => {
                return false;
            },
        };
        let csb = match crate::levels::count_side_orders(&self.stop_bids) {
            Some(v) => v,
            None => {
                return false;
            },
        };
        let csa = match crate::levels::count_side_orders(&self.stop_asks) {
            Some(v) => v,
            None => {
                return false;
            },
        };
        let need: u128 = (self.next_trade_id as u128) + (cb as u128) + (ca as u128) + 2
            * (csb as u128) + 2 * (csa as u128) + 1;
        need <= u64::MAX as u128
    }

    /// Takes the oldest stop order out of the dormant level at `li` and
    /// removes its index entry; the firing path of the trigger evaluation.
    fn pop_stop(&mut self, li: usize, is_ask: bool) -> (o: Order)
        requires
            old(self).wf(),
            li < (if is_ask {
                old(self)@.stop_asks
            } else {
                old(self)@.stop_bids
            }).len(),
        ensures
            final(self).wf(),
            ({
                let stops = if is_ask {
                    old(self)@.stop_asks
                } else {
                    old(self)@.stop_bids
                };
                &&& o == stops[li as int].orders[0]
                &&& order_fits(
                    o,
                    if is_ask {
                        Side::Ask
                    } else {
                        Side::Bid
                    },
                    stops[li as int].price,
                    true,
                )
                &&& final(self)@ == (if is_ask {
                    BookModel { stop_asks: pop_at(stops, li as int), ..old(self)@ }
                } else {
                    BookModel { stop_bids: pop_at(stops, li as int), ..old(self)@ }
                })
                &&& forall|x: u64| final(self)@.has_id(x) == (old(self)@.has_id(x) && x != o.id)
            }),
    {
        let ghost m0 = self@;
        let ghost locs0 = self.order_locations@;
        let ghost side = if is_ask {
            Side::Ask
        } else {
            Side::Bid
        };
        let ghost stops0 = if is_ask {
            m0.stop_asks
        } else {
            m0.stop_bids
        };
        proof {
            assert(level_wf(stops0[li as int], side, true));
        }
        let o = if is_ask {
            crate::levels::pop_front_level(&mut self.stop_asks, li)
        } else {
            crate::levels::pop_front_level(&mut self.stop_bids, li)
        };
        let ghost og = o;
        self.order_locations.remove(&o.id);
        proof {
            let m1 = self@;
            assert(order_fits(og, side, stops0[li as int].price, true));
            assert(locs0.contains_key(og.id) && locs0[og.id] == OrderLocation {
                side,
                price: stops0[li as int].price,
                dormant: true,
            }) by {
                assert(stops0[li as int].orders[0].id == og.id);
            }
            assert(level_has_id(stops0[li as int], og.id)) by {
                assert(stops0[li as int].orders[0].id == og.id);
            }
            lemma_cover_unique_level(stops0, side, true, locs0, og.id, li as int);
            lemma_unfiled(stops0, og.id, side, true, li as int, 0);
            let s1 = if stops0[li as int].orders.len() == 1 {
                stops0.remove(li as int)
            } else {
                stops0.update(
                    li as int,
                    LevelModel {
                        price: stops0[li as int].price,
                        orders: stops0[li as int].orders.remove(0),
                    },
                )
            };
            assert(s1 == pop_at(stops0, li as int)) by {
                assert(stops0[li as int].orders.remove(0) =~= stops0[li as int].orders.skip(1));
            }
            assert(unfiled(
                m0.container(side, true),
                m1.container(side, true),
                og.id,
                side,
                true,
            ));
            assert forall|s2: Side, d2: bool| !(s2 == side && d2 == true) implies #[trigger] m1
                .container(s2, d2) == m0.container(s2, d2) by {}
            lemma_book_unfiled(m0, m1, locs0, self.order_locations@, og.id, side, true);
            assert(m1 =~= (if is_ask {
                BookModel { stop_asks: pop_at(stops0, li as int), ..m0 }
            } else {
                BookModel { stop_bids: pop_at(stops0, li as int), ..m0 }
            }));
        }
        o
    }

    /// Evaluates the dormant stop books against the last traded price to a
    /// fixed point: fires the first crossed stop (sell stops first, lowest
    /// trigger first, oldest first), converts it in place to a Limit order
    /// and matches it, appending its trades; a fired order's own trades can
    /// move the last price and fire further stops, never itself.
    #[verifier::loop_isolation(false)]
    fn check_triggers(&mut self, trades: &mut Vec<Trade>)
        requires
            old(self).wf(),
            old(self)@.next_trade_id + old(self)@.stored_orders() + total_orders(
                old(self)@.stop_bids,
            ) + total_orders(old(self)@.stop_asks) <= u64::MAX,
        ensures
            final(self).wf(),
            final(trades)@ == old(trades)@ + spec_fire(old(self)@).0,
            final(self)@ == spec_fire(old(self)@).1,
            no_pending_triggers(final(self)@),
            forall|x: u64| #[trigger] final(self)@.has_id(x) ==> old(self)@.has_id(x),
    {
        let ghost m0 = self@;
        let ghost n0 = trades@.len() as int;
        proof {
            assert(trades@.subrange(0, n0) =~= trades@);
            assert(trades@.skip(n0) =~= Seq::<Trade>::empty());
        }
        #[verifier::loop_isolation(true)]
        loop
            invariant
                self.wf(),
                self@.next_trade_id + self@.stored_orders() + total_orders(self@.stop_bids)
                    + total_orders(self@.stop_asks) <= u64::MAX,
                0 <= n0 <= trades@.len(),
                trades@.subrange(0, n0) == old(trades)@,
                spec_fire(m0).0 == trades@.skip(n0) + spec_fire(self@).0,
                spec_fire(m0).1 == spec_fire(self@).1,
                forall|x: u64| #[trigger] self@.has_id(x) ==> m0.has_id(x),
            ensures
                no_pending_triggers(self@),
            decreases total_orders(self@.stop_bids) + total_orders(self@.stop_asks),
        {
            let ghost mc = self@;
            if self.last_price.is_none() {
                proof {
                    assert(next_trigger(mc) is None);
                }
                break;
            }
            let p = self.last_price.unwrap();
            // Scan the sell stops for the lowest trigger at or above `p`.
            let mut li: usize = 0;
            while li < self.stop_asks.len() && self.stop_asks[li].price < p
                invariant
                    0 <= li <= mc.stop_asks.len(),
                    self@ == mc,
                    forall|k: int| 0 <= k < li ==> (#[trigger] mc.stop_asks[k]).price < p,
                decreases mc.stop_asks.len() - li,
            {
                assert(mc.stop_asks[li as int] == self.stop_asks@[li as int]@);
                li += 1;
            }
            proof {
                lemma_first_ge(mc.stop_asks, p);
                if li < self.stop_asks.len() {
                    assert(mc.stop_asks[li as int] == self.stop_asks@[li as int]@);
                    assert(mc.stop_asks[li as int].price >= p);
                    assert(first_ge(mc.stop_asks, p) == Some(li as int)) by {
                        match first_ge(mc.stop_asks, p) {
                            None => {
                                assert(mc.stop_asks[li as int].price < p);
                            },
                            Some(j) => {
                                if j < li as int {
                                    assert(mc.stop_asks[j].price < p);
                                } else if j > li as int {
                                    assert(mc.stop_asks[li as int].price < p);
                                }
                            },
                        }
                    }
                } else {
                    assert(first_ge(mc.stop_asks, p) is None) by {
                        match first_ge(mc.stop_asks, p) {
                            None => {},
                            Some(j) => {
                                assert(mc.stop_asks[j].price < p);
                            },
                        }
                    }
                }
            }
            let fire_ask = li < self.stop_asks.len();
            let mut fire_bid = false;
            if !fire_ask {
                if self.stop_bids.len() > 0 {
                    proof {
                        assert(mc.stop_bids[0] == self.stop_bids@[0]@);
                    }
                    if self.stop_bids[0].price <= p {
                        fire_bid = true;
                    }
                }
            }
            if !fire_ask && !fire_bid {
                proof {
                    assert(next_trigger(mc) is None);
                }
                break;
            }
            let is_ask = fire_ask;
            let fi = if fire_ask {
                li
            } else {
                0
            };
            proof {
                assert(next_trigger(mc) == Some(
                    (
                        if is_ask {
                            Side::Ask
                        } else {
                            Side::Bid
                        },
                        fi as int,
                    ),
                ));
            }
            let ghost stops_c = if is_ask {
                mc.stop_asks
            } else {
                mc.stop_bids
            };
            proof {
                assert(level_wf(stops_c[fi as int], if is_ask {
                    Side::Ask
                } else {
                    Side::Bid
                }, true));
                lemma_total_pop_at(stops_c, fi as int);
            }
            let mut fired = self.pop_stop(fi, is_ask);
            let ghost m1 = self@;
            fired.order_type = OrderType::Limit;
            let ghost o2 = fired;
            proof {
                assert(o2 == Order { order_type: OrderType::Limit, ..stops_c[fi as int].orders[0] });
                // The pass's budget: one fresh id plus the opposite side.
                assert(m1.next_trade_id + total_orders(
                    if o2.side == Side::Bid {
                        m1.asks
                    } else {
                        m1.bids
                    },
                ) + 1 <= u64::MAX);
            }
            let mut ts = self.match_pass(fired);
            proof {
                let r = spec_match_pass(m1, o2);
                assert(ts@ == r.0 && self@ == r.1);
                assert(r.1.stop_asks == m1.stop_asks && r.1.stop_bids == m1.stop_bids);
                assert(spec_fire(mc) == (r.0 + spec_fire(r.1).0, spec_fire(r.1).1));
            }
            let ghost tb = trades@;
            let ghost added_before = trades@.skip(n0);
            let ghost tsg = ts@;
            trades.append(&mut ts);
            proof {
                assert(trades@ == tb + tsg);
                assert(trades@.subrange(0, n0) =~= old(trades)@) by {
                    assert(tb.subrange(0, n0) == old(trades)@);
                    assert forall|k: int| 0 <= k < n0 implies trades@.subrange(0, n0)[k] == old(
                        trades,
                    )@[k] by {
                        assert(trades@[k] == tb[k]);
                        assert(tb.subrange(0, n0)[k] == tb[k]);
                    }
                }
                assert(trades@.skip(n0) =~= added_before + tsg) by {
                    assert forall|k: int| 0 <= k < trades@.skip(n0).len() implies trades@.skip(
                        n0,
                    )[k] == (added_before + tsg)[k] by {
                        assert(trades@.skip(n0)[k] == trades@[k + n0]);
                        if k + n0 < tb.len() {
                            assert(trades@[k + n0] == tb[k + n0]);
                            assert(added_before[k] == tb[k + n0]);
                        } else {
                            assert(trades@[k + n0] == tsg[k + n0 - tb.len()]);
                        }
                    }
                }
                assert(spec_fire(m0).0 == trades@.skip(n0) + spec_fire(self@).0) by {
                    assert(tsg == spec_match_pass(m1, o2).0);
                    assert(added_before + (spec_match_pass(m1, o2).0 + spec_fire(self@).0) =~= (
                    added_before + spec_match_pass(m1, o2).0) + spec_fire(self@).0);
                }
                // Firing only moves an already-stored id; nothing new appears.
                assert(mc.has_id(o2.id)) by {
                    assert(stops_c[fi as int].orders[0].id == o2.id);
                    assert(level_has_id(stops_c[fi as int], o2.id));
                    assert(side_has_id(stops_c, o2.id));
                }
                assert forall|x: u64| #[trigger] self@.has_id(x) implies m0.has_id(x) by {
                    assert(m1.has_id(x) || x == o2.id);
                    assert(mc.has_id(x));
                }
            }
        }
        proof {
            assert(spec_fire(self@) == (Seq::<Trade>::empty(), self@));
            assert(spec_fire(m0).0 =~= trades@.skip(n0));
            assert(trades@ =~= trades@.subrange(0, n0) + trades@.skip(n0));
        }
    }

    /// Processes one inbound order. A StopLimit order is filed dormant
    /// under its trigger price — or rejected, with no state change and no
    /// trade, when the trigger is missing. Any other order is matched
    /// best-price-first against the opposite side; a Limit remainder rests,
    /// a Market remainder is discarded, and the trades fire the dormant
    /// stop books to a fixed point. Exactly `spec_process`.
    pub fn process_order(&mut self, order: Order) -> (trades: Vec<Trade>)
        requires
            old(self).wf(),
            order.amount > 0,
            !old(self)@.has_id(order.id),
            old(self)@.id_budget_ok(),
        ensures
            final(self).wf(),
            trades@ == spec_process(old(self)@, order).0,
            final(self)@ == spec_process(old(self)@, order).1,
            order.order_type == OrderType::Market ==> !final(self)@.has_id(order.id),
            trades@.len() > 0 ==> no_pending_triggers(final(self)@),
            order.order_type == OrderType::StopLimit ==> trades@ == Seq::<Trade>::empty(),
            order.order_type == OrderType::StopLimit && order.trigger_price is None
                ==> final(self)@ == old(self)@,
            order.order_type == OrderType::StopLimit && order.trigger_price is Some
                ==> final(self)@.dormant(order.id),
            forall|k: int|
                0 <= k < trades@.len() ==> (#[trigger] trades@[k]).trade_id == old(
                    self,
                )@.next_trade_id + k,
            final(self)@.next_trade_id == old(self)@.next_trade_id + trades@.len(),
    {
        let ghost m0 = self@;
        let ghost o0 = order;
        if order.order_type == OrderType::StopLimit {
            let r = self.add_stop_order(order);
            proof {
                if o0.trigger_price is Some {
                    assert(self@ =~= spec_process(m0, o0).1);
                }
            }
            return r;
        }
        proof {
            lemma_spec_pass_ids(m0, o0);
        }
        let mut trades = self.match_pass(order);
        let ghost m1 = self@;
        if trades.len() > 0 {
            proof {
                assert(m1.stop_bids == m0.stop_bids && m1.stop_asks == m0.stop_asks);
                lemma_spec_pass_count(m0, o0);
                lemma_spec_fire_ids(m1);
            }
            self.check_triggers(&mut trades);
            proof {
                let rp = spec_match_pass(m0, o0);
                let rf = spec_fire(m1);
                assert(trades@ == rp.0 + rf.0);
                assert(spec_process(m0, o0) == (rp.0 + rf.0, rf.1));
                assert forall|k: int|
                    0 <= k < trades@.len() implies (#[trigger] trades@[k]).trade_id
                    == m0.next_trade_id + k by {
                    if k < rp.0.len() {
                        assert(trades@[k] == rp.0[k]);
                    } else {
                        assert(trades@[k] == rf.0[k - rp.0.len()]);
                    }
                }
                if o0.order_type == OrderType::Market {
                    assert(!self@.has_id(o0.id)) by {
                        if self@.has_id(o0.id) {
                            assert(m1.has_id(o0.id));
                        }
                    }
                }
            }
        } else {
            proof {
                assert(trades@ =~= Seq::<Trade>::empty());
            }
        }
        trades
    }
}

/// What one matching pass leaves of the opposite side and of the index:
/// the side stays well formed and covered, no index entry changes value,
/// exactly the consumed ids leave the index, and every surviving order is
/// still found at its old price.
pub open spec fn matched_side(
    s0: Seq<LevelModel>,
    s1: Seq<LevelModel>,
    locs0: Map<u64, OrderLocation>,
    locs1: Map<u64, OrderLocation>,
    lside: Side,
) -> bool {
    &&& side_wf(s1, lside, false)
    &&& locs_cover_side(s1, lside, false, locs1)
    &&& forall|x: u64| #[trigger]
        locs1.contains_key(x) ==> locs0.contains_key(x) && locs1[x] == locs0[x]
    &&& forall|x: u64|
        #[trigger] locs0.contains_key(x) && !(side_has_id(s0, x) && !side_has_id(s1, x))
            ==> locs1.contains_key(x)
    &&& forall|x: u64| #[trigger] side_has_id(s1, x) ==> side_has_id(s0, x)
    &&& forall|x: u64| side_has_id(s0, x) && !side_has_id(s1, x) ==> !locs1.contains_key(x)
    &&& forall|k2: u64, x: u64|
        found_at(s0, k2, x) && side_has_id(s1, x) ==> found_at(s1, k2, x)
}

/// Under a covering index, an id can live at only one level of a side.
proof fn lemma_cover_unique_level(
    s: Seq<LevelModel>,
    side: Side,
    dormant: bool,
    locs: Map<u64, OrderLocation>,
    id: u64,
    li: int,
)
    requires
        side_wf(s, side, dormant),
        locs_cover_side(s, side, dormant, locs),
        0 <= li < s.len(),
        level_has_id(s[li], id),
    ensures
        forall|i: int| 0 <= i < s.len() && level_has_id(#[trigger] s[i], id) ==> i == li,
{
    let j0 = choose|j0: int| 0 <= j0 < s[li].orders.len() && (#[trigger] s[li].orders[j0]).id == id;
    assert(locs[s[li].orders[j0].id] == OrderLocation { side, price: s[li].price, dormant });
    assert forall|i: int| 0 <= i < s.len() && level_has_id(#[trigger] s[i], id) implies i == li by {
        let j = choose|j: int| 0 <= j < s[i].orders.len() && (#[trigger] s[i].orders[j]).id == id;
        assert(locs[s[i].orders[j].id] == OrderLocation { side, price: s[i].price, dormant });
        assert(s[i].price == s[li].price);
        if i != li {
            let a: int = if i < li {
                i
            } else {
                li
            };
            let b: int = if i < li {
                li
            } else {
                i
            };
            assert(price_better(s[a].price, s[b].price, crate::levels::descending_of(side, dormant)));
        }
    }
}

/// One matching pass of the taker against the opposite side `levels`:
/// consumes the best level first and, within it, the oldest order first,
/// emitting one trade per fill at the maker's price, until the taker is
/// exhausted or the front level no longer crosses. Fully consumed makers
/// leave the index; a partially consumed one keeps its place at the front
/// of its queue. Equal to `spec_match` in trades, remaining side and
/// trade-id counter.
#[verifier::loop_isolation(false)]
fn match_levels(
    levels: &mut Vec<Level>,
    locs: &mut HashMap<u64, OrderLocation>,
    taker: &mut Order,
    next_tid: &mut u64,
    trades: &mut Vec<Trade>,
    Ghost(lside): Ghost<Side>,
)
    requires
        lside == old(taker).side.opposite(),
        side_wf(side_view(old(levels)@), lside, false),
        locs_cover_side(side_view(old(levels)@), lside, false, old(locs)@),
        *old(next_tid) + total_orders(side_view(old(levels)@)) + 1 <= u64::MAX,
    ensures
        ({
            let r = spec_match(side_view(old(levels)@), *old(taker), *old(next_tid) as int);
            &&& final(trades)@ == old(trades)@ + r.0
            &&& side_view(final(levels)@) == r.1
            &&& *final(next_tid) as int == r.2
            &&& trade_total(r.0) <= old(taker).amount
            &&& *final(taker) == (Order {
                amount: (old(taker).amount - trade_total(r.0)) as u64,
                ..*old(taker)
            })
            &&& matched_side(
                side_view(old(levels)@),
                side_view(final(levels)@),
                old(locs)@,
                final(locs)@,
                lside,
            )
        }),
{
    let ghost s0 = side_view(levels@);
    let ghost t0 = *taker;
    let ghost tid0 = *next_tid as int;
    let ghost n0 = trades@.len() as int;
    let ghost locs0 = locs@;
    proof {
        assert(trades@.subrange(0, n0) =~= trades@);
        assert(trades@.skip(n0) =~= Seq::<Trade>::empty());
        assert(matched_side(s0, s0, locs0, locs0, lside)) by {
            assert forall|k2: u64, x: u64| found_at(s0, k2, x) && side_has_id(s0, x) implies
                found_at(s0, k2, x) by {}
        }
    }
    loop
        invariant
            taker.side == t0.side,
            taker.order_type == t0.order_type,
            taker.price == t0.price,
            taker.id == t0.id,
            taker.user_id == t0.user_id,
            taker.symbol == t0.symbol,
            taker.trigger_price == t0.trigger_price,
            taker.timestamp == t0.timestamp,
            n0 <= trades@.len(),
            trades@.subrange(0, n0) == old(trades)@,
            matched_side(s0, side_view(levels@), locs0, locs@, lside),
            spec_match(s0, t0, tid0).0 == trades@.skip(n0) + spec_match(
                side_view(levels@),
                *taker,
                *next_tid as int,
            ).0,
            spec_match(s0, t0, tid0).1 == spec_match(
                side_view(levels@),
                *taker,
                *next_tid as int,
            ).1,
            spec_match(s0, t0, tid0).2 == spec_match(
                side_view(levels@),
                *taker,
                *next_tid as int,
            ).2,
            taker.amount as int == t0.amount - trade_total(trades@.skip(n0)),
            *next_tid as int == tid0 + (trades@.len() - n0),
            *next_tid as int + total_orders(side_view(levels@)) <= u64::MAX,
            taker.amount > 0 ==> *next_tid as int + total_orders(side_view(levels@)) + 1
                <= u64::MAX,
        decreases total_orders(side_view(levels@)), taker.amount,
    {
        if taker.amount == 0 {
            break;
        }
        if levels.len() == 0 {
            break;
        }
        let lvl_price = levels[0].price;
        proof {
            assert(side_view(levels@)[0] == levels@[0]@);
            assert(level_wf(side_view(levels@)[0], lside, false));
        }
        let can = match taker.order_type {
            OrderType::Market => true,
            OrderType::Limit => if taker.side == Side::Bid {
                taker.price >= lvl_price
            } else {
                taker.price <= lvl_price
            },
            OrderType::StopLimit => false,
        };
        proof {
            assert(can == crosses(*taker, side_view(levels@)[0].price));
        }
        if !can {
            break;
        }
        let ghost cur = side_view(levels@);
        let ghost curv = levels@;
        let ghost locsi = locs@;
        let ghost tc = *taker;
        let ghost tidc = *next_tid as int;
        let ghost added0 = trades@.skip(n0);

        let maker_id = levels[0].orders[0].id;
        let maker_amount = levels[0].orders[0].amount;
        proof {
            assert(cur[0].orders[0] == levels@[0]@.orders[0]);
            assert(order_fits(cur[0].orders[0], lside, cur[0].price, false));
            assert(total_orders(cur) >= 1) by {
                crate::matching::lemma_total_orders_skip(cur);
            }
        }
        let amt = if taker.amount < maker_amount {
            taker.amount
        } else {
            maker_amount
        };
        let tr = Trade {
            trade_id: *next_tid,
            buyer_order_id: if taker.side == Side::Bid {
                taker.id
            } else {
                maker_id
            },
            seller_order_id: if taker.side == Side::Bid {
                maker_id
            } else {
                taker.id
            },
            price: lvl_price,
            amount: amt,
            timestamp: 0,
        };
        proof {
            assert(tr == make_trade(tc, maker_id, cur[0].price, amt, tidc));
        }
        trades.push(tr);
        *next_tid = *next_tid + 1;
        taker.amount = taker.amount - amt;
        proof {
            assert(trades@.skip(n0) =~= added0.push(tr));
            lemma_trade_total_push(added0, tr);
            assert(trades@.subrange(0, n0) =~= old(trades)@);
        }

        if maker_amount > amt {
            // The maker survives with the difference; the taker is done.
            let newamt = maker_amount - amt;
            let lvl = &mut levels[0];
            let mk = &mut lvl.orders[0];
            mk.amount = newamt;
            proof {
                let maker2 = Order { amount: newamt, ..cur[0].orders[0] };
                let cur2 = cur.update(
                    0,
                    LevelModel { price: cur[0].price, orders: cur[0].orders.update(0, maker2) },
                );
                assert(side_view(levels@) =~= cur2) by {
                    assert forall|k: int| 0 <= k < side_view(levels@).len() implies side_view(
                        levels@,
                    )[k] == cur2[k] by {
                        assert(side_view(levels@)[k] == levels@[k]@);
                        if k == 0 {
                            assert(levels@[0]@.orders =~= cur[0].orders.update(0, maker2));
                        }
                    }
                }
                lemma_match_step_partial(cur, lside, newamt);
                // One spec step: the maker survives, so the pass is over.
                assert(spec_match(cur, tc, tidc) == (seq![tr], cur2, tidc + 1));
                assert(spec_match(cur2, *taker, *next_tid as int) == (
                    Seq::<Trade>::empty(),
                    cur2,
                    *next_tid as int,
                ));
                assert(spec_match(s0, t0, tid0).0 == trades@.skip(n0) + spec_match(
                    side_view(levels@),
                    *taker,
                    *next_tid as int,
                ).0) by {
                    assert(added0 + seq![tr] =~= added0.push(tr));
                    assert(added0.push(tr) + Seq::<Trade>::empty() =~= added0.push(tr));
                }
                // The index is untouched; memberships and prices carry over.
                assert(matched_side(s0, cur2, locs0, locs@, lside)) by {
                    assert(locs_cover_side(cur2, lside, false, locs@)) by {
                        assert forall|i: int, j: int|
                            0 <= i < cur2.len() && 0 <= j < cur2[i].orders.len() implies {
                            &&& locs@.contains_key((#[trigger] cur2[i].orders[j]).id)
                            &&& locs@[cur2[i].orders[j].id] == OrderLocation {
                                side: lside,
                                price: cur2[i].price,
                                dormant: false,
                            }
                        } by {
                            assert(cur2[i].orders[j].id == cur[i].orders[j].id);
                            assert(cur2[i].price == cur[i].price);
                            assert(locs@.contains_key(cur[i].orders[j].id));
                        }
                    }
                    assert forall|k2: u64, x: u64|
                        found_at(s0, k2, x) && side_has_id(cur2, x) implies found_at(
                        cur2,
                        k2,
                        x,
                    ) by {
                        assert(side_has_id(cur2, x) == side_has_id(cur, x));
                        assert(found_at(cur, k2, x) ==> found_at(cur2, k2, x));
                    }
                }
            }
        } else {
            // The maker is consumed whole; drop it, and its level if empty.
            proof {
                lemma_cover_unique_level(cur, lside, false, locs@, maker_id, 0);
                lemma_match_step_consume(cur, lside);
            }
            let lvl = &mut levels[0];
            lvl.orders.remove(0);
            let is_empty = lvl.orders.len() == 0;
            if is_empty {
                levels.remove(0);
            }
            locs.remove(&maker_id);
            proof {
                let cur2 = if cur[0].orders.len() == 1 {
                    cur.skip(1)
                } else {
                    cur.update(0, LevelModel { price: cur[0].price, orders: cur[0].orders.skip(1) })
                };
                if cur[0].orders.len() == 1 {
                    assert(levels@ =~= curv.skip(1));
                }
                assert(side_view(levels@) =~= cur2) by {
                    assert forall|k: int| 0 <= k < side_view(levels@).len() implies side_view(
                        levels@,
                    )[k] == cur2[k] by {
                        assert(side_view(levels@)[k] == levels@[k]@);
                        if cur[0].orders.len() == 1 {
                            assert(levels@[k] == curv[k + 1]);
                            assert(cur2[k] == cur[k + 1]);
                        } else {
                            if k == 0 {
                                assert(levels@[0]@.orders =~= cur[0].orders.skip(1));
                            } else {
                                assert(levels@[k] == curv[k]);
                            }
                        }
                    }
                }
                assert(locs@ == locsi.remove(maker_id));
                let taker2 = Order { amount: (tc.amount - amt) as u64, ..tc };
                assert(*taker =~= taker2);
                // One spec step: the maker is consumed and the pass goes on.
                let r = spec_match(cur2, taker2, tidc + 1);
                assert(spec_match(cur, tc, tidc) == (seq![tr] + r.0, r.1, r.2));
                assert(spec_match(s0, t0, tid0).0 == trades@.skip(n0) + spec_match(
                    side_view(levels@),
                    *taker,
                    *next_tid as int,
                ).0) by {
                    assert(added0 + (seq![tr] + r.0) =~= added0.push(tr) + r.0);
                }
                // Re-establish the index relation after the removal.
                let locsc = locsi;
                let locsn = locs@;
                assert(matched_side(s0, cur2, locs0, locsn, lside)) by {
                    assert(side_wf(cur2, lside, false));
                    assert forall|x: u64| #[trigger] locsn.contains_key(x) implies locs0
                        .contains_key(x) && locsn[x] == locs0[x] by {
                        assert(locsi.contains_key(x) && locsi[x] == locsn[x]);
                    }
                    assert forall|x: u64| #[trigger] side_has_id(cur2, x) implies side_has_id(
                        s0,
                        x,
                    ) by {
                        assert(side_has_id(cur, x));
                    }
                    assert(locs_cover_side(cur2, lside, false, locsn)) by {
                        assert forall|i: int, j: int|
                            0 <= i < cur2.len() && 0 <= j < cur2[i].orders.len() implies {
                            &&& locsn.contains_key((#[trigger] cur2[i].orders[j]).id)
                            &&& locsn[cur2[i].orders[j].id] == OrderLocation {
                                side: lside,
                                price: cur2[i].price,
                                dormant: false,
                            }
                        } by {
                            let o = cur2[i].orders[j];
                            assert(stored_at(cur, cur2[i].price, o) && o.id != maker_id);
                            let (i2, j2) = choose|i2: int, j2: int|
                                0 <= i2 < cur.len() && 0 <= j2 < cur[i2].orders.len() && cur[i2].price
                                    == cur2[i].price && (#[trigger] cur[i2].orders[j2]) == o;
                            assert(locsc.contains_key(o.id));
                        }
                    }
                    assert forall|x: u64|
                        #[trigger] locs0.contains_key(x) && !(side_has_id(s0, x) && !side_has_id(
                            cur2,
                            x,
                        )) implies locsn.contains_key(x) by {
                        if x != maker_id {
                            assert(side_has_id(cur2, x) == (side_has_id(cur, x) && x != maker_id));
                            assert(locsc.contains_key(x) ==> locsn.contains_key(x));
                        } else {
                            assert(level_has_id(cur[0], maker_id)) by {
                                assert(cur[0].orders[0].id == maker_id);
                            }
                            assert(side_has_id(cur, maker_id));
                            assert(side_has_id(s0, maker_id));
                        }
                    }
                    assert forall|x: u64|
                        side_has_id(s0, x) && !side_has_id(cur2, x) implies !locsn.contains_key(
                        x,
                    ) by {
                        if x == maker_id {
                        } else {
                            assert(!side_has_id(cur, x) ==> !locsc.contains_key(x));
                        }
                    }
                    assert forall|k2: u64, x: u64|
                        found_at(s0, k2, x) && side_has_id(cur2, x) implies found_at(
                        cur2,
                        k2,
                        x,
                    ) by {
                        assert(side_has_id(cur, x) && x != maker_id);
                        assert(found_at(cur, k2, x));
                    }
                }
            }
        }
    }
    proof {
        let cur = side_view(levels@);
        assert(spec_match(cur, *taker, *next_tid as int) == (
            Seq::<Trade>::empty(),
            cur,
            *next_tid as int,
        ));
        let r = spec_match(s0, t0, tid0);
        assert(r.0 =~= trades@.skip(n0));
        assert(trades@ =~= trades@.subrange(0, n0) + trades@.skip(n0));
        assert(*taker =~= Order { amount: (t0.amount - trade_total(r.0)) as u64, ..t0 });
    }
}

/// One full matching pass at the book level: the taker matches against
/// the opposite side, the last traded price moves to the last trade's
/// price, and a Limit taker's unfilled remainder rests on its own side.
/// A Market remainder is discarded.
pub open spec fn spec_match_pass(m: BookModel, taker: Order) -> (Seq<Trade>, BookModel) {
    let opp = if taker.side == Side::Bid {
        m.asks
    } else {
        m.bids
    };
    let r = spec_match(opp, taker, m.next_trade_id);
    let ts = r.0;
    let leftover = taker.amount - trade_total(ts);
    let m1 = BookModel {
        bids: if taker.side == Side::Bid {
            m.bids
        } else {
            r.1
        },
        asks: if taker.side == Side::Bid {
            r.1
        } else {
            m.asks
        },
        last_price: if ts.len() > 0 {
            Some(ts[ts.len() - 1].price)
        } else {
            m.last_price
        },
        next_trade_id: r.2,
        ..m
    };
    let m2 = if leftover > 0 && taker.order_type == OrderType::Limit {
        let rest = Order { amount: leftover as u64, ..taker };
        if taker.side == Side::Bid {
            BookModel { bids: add_to_side(m1.bids, taker.price, rest, true), ..m1 }
        } else {
            BookModel { asks: add_to_side(m1.asks, taker.price, rest, false), ..m1 }
        }
    } else {
        m1
    };
    (ts, m2)
}

/// Which dormant stop order fires next at the current last traded price:
/// sell stops whose trigger is at or above it fire first, lowest trigger
/// first; then buy stops whose trigger is at or below it, lowest first;
/// oldest first within a level. Nothing fires before a first trade.
pub open spec fn next_trigger(m: BookModel) -> Option<(Side, int)> {
    match m.last_price {
        None => None,
        Some(p) => match first_ge(m.stop_asks, p) {
            Some(i) => Some((Side::Ask, i)),
            None => if m.stop_bids.len() > 0 && m.stop_bids[0].price <= p {
                Some((Side::Bid, 0int))
            } else {
                None
            },
        },
    }
}

/// No dormant stop order's trigger is crossed by the last traded price.
pub open spec fn no_pending_triggers(m: BookModel) -> bool {
    next_trigger(m) is None
}

/// Evaluates the dormant stop books to a fixed point: while some stop's
/// trigger is crossed by the last traded price, the first such stop is
/// taken out of its dormant book, converted in place to a Limit order and
/// matched; its trades can move the last traded price and so fire further
/// stops, but never the stop itself, which was removed first.
pub open spec fn spec_fire(m: BookModel) -> (Seq<Trade>, BookModel)
    decreases total_orders(m.stop_bids) + total_orders(m.stop_asks),
    via spec_fire_decreases
{
    match next_trigger(m) {
        None => (seq![], m),
        Some((side, i)) => {
            let stops = if side == Side::Ask {
                m.stop_asks
            } else {
                m.stop_bids
            };
            if stops[i].orders.len() == 0 {
                (seq![], m)
            } else {
                let o = stops[i].orders[0];
                let m1 = if side == Side::Ask {
                    BookModel { stop_asks: pop_at(stops, i), ..m }
                } else {
                    BookModel { stop_bids: pop_at(stops, i), ..m }
                };
                let o2 = Order { order_type: OrderType::Limit, ..o };
                let r = spec_match_pass(m1, o2);
                let r2 = spec_fire(r.1);
                (r.0 + r2.0, r2.1)
            }
        },
    }
}

#[via_fn]
proof fn spec_fire_decreases(m: BookModel) {
    match next_trigger(m) {
        None => {},
        Some((side, i)) => {
            let stops = if side == Side::Ask {
                m.stop_asks
            } else {
                m.stop_bids
            };
            if m.last_price is Some {
                lemma_first_ge(m.stop_asks, m.last_price.unwrap());
            }
            assert(0 <= i < stops.len());
            if stops[i].orders.len() > 0 {
                let o = stops[i].orders[0];
                let m1 = if side == Side::Ask {
                    BookModel { stop_asks: pop_at(stops, i), ..m }
                } else {
                    BookModel { stop_bids: pop_at(stops, i), ..m }
                };
                let o2 = Order { order_type: OrderType::Limit, ..o };
                let r = spec_match_pass(m1, o2);
                lemma_total_pop_at(stops, i);
                assert(r.1.stop_asks == m1.stop_asks && r.1.stop_bids == m1.stop_bids);
            }
        },
    }
}

/// Processing one inbound order, at the model level: a StopLimit order is
/// filed dormant under its trigger (or rejected without a trigger); any
/// other order runs one matching pass, and its trades, if any, fire the
/// stop books to a fixed point.
pub open spec fn spec_process(m: BookModel, order: Order) -> (Seq<Trade>, BookModel) {
    if order.order_type == OrderType::StopLimit {
        match order.trigger_price {
            None => (seq![], m),
            Some(t) => (
                seq![],
                if order.side == Side::Bid {
                    BookModel { stop_bids: add_to_side(m.stop_bids, t, order, false), ..m }
                } else {
                    BookModel { stop_asks: add_to_side(m.stop_asks, t, order, false), ..m }
                },
            ),
        }
    } else {
        let r = spec_match_pass(m, order);
        if r.0.len() > 0 {
            let r2 = spec_fire(r.1);
            (r.0 + r2.0, r2.1)
        } else {
            r
        }
    }
}

/// A matching pass on one side re-establishes the whole book's invariant,
/// and only removes ids.
proof fn lemma_book_matched(
    m0: BookModel,
    m1: BookModel,
    locs0: Map<u64, OrderLocation>,
    locs1: Map<u64, OrderLocation>,
    lside: Side,
)
    requires
        m0.sides_wf(),
        book_cover(m0, locs0),
        locs_sound(m0, locs0),
        matched_side(m0.container(lside, false), m1.container(lside, false), locs0, locs1, lside),
        forall|s2: Side, d2: bool|
            !(s2 == lside && d2 == false) ==> #[trigger] m1.container(s2, d2) == m0.container(
                s2,
                d2,
            ),
    ensures
        m1.sides_wf(),
        book_cover(m1, locs1),
        locs_sound(m1, locs1),
        forall|x: u64| #[trigger] m1.has_id(x) ==> m0.has_id(x),
{
    let c0 = m0.container(lside, false);
    let c1 = m1.container(lside, false);

    assert(m1.container(Side::Bid, false) == m1.bids);
    assert(m1.container(Side::Ask, false) == m1.asks);
    assert(m1.container(Side::Bid, true) == m1.stop_bids);
    assert(m1.container(Side::Ask, true) == m1.stop_asks);
    assert(m0.container(Side::Bid, false) == m0.bids);
    assert(m0.container(Side::Ask, false) == m0.asks);
    assert(m0.container(Side::Bid, true) == m0.stop_bids);
    assert(m0.container(Side::Ask, true) == m0.stop_asks);

    // An id of an untouched container never sits on the matched side, so
    // its entry was kept.
    assert forall|s2: Side, d2: bool| !(s2 == lside && d2 == false) implies side_wf(
        m1.container(s2, d2),
        s2,
        d2,
    ) && locs_cover_side(m1.container(s2, d2), s2, d2, locs1) by {
        let c = m0.container(s2, d2);
        assert(side_wf(c, s2, d2));
        assert forall|i: int, j: int|
            0 <= i < c.len() && 0 <= j < c[i].orders.len() implies {
            &&& locs1.contains_key((#[trigger] c[i].orders[j]).id)
            &&& locs1[c[i].orders[j].id] == OrderLocation { side: s2, price: c[i].price, dormant: d2 }
        } by {
            let x = c[i].orders[j].id;
            assert(locs0.contains_key(x));
            assert(locs0[x] == OrderLocation { side: s2, price: c[i].price, dormant: d2 });
            assert(!side_has_id(c0, x)) by {
                if side_has_id(c0, x) {
                    let w = choose|w: int| 0 <= w < c0.len() && level_has_id(#[trigger] c0[w], x);
                    let j2 = choose|j2: int|
                        0 <= j2 < c0[w].orders.len() && (#[trigger] c0[w].orders[j2]).id == x;
                    assert(locs0[x] == OrderLocation {
                        side: lside,
                        price: c0[w].price,
                        dormant: false,
                    });
                }
            }
            assert(locs1.contains_key(x) && locs1[x] == locs0[x]);
        }
    }

    // Soundness: surviving entries point at surviving orders.
    assert(locs_sound(m1, locs1)) by {
        assert forall|x: u64| #[trigger] locs1.contains_key(x) implies found_at(
            m1.container(locs1[x].side, locs1[x].dormant),
            locs1[x].price,
            x,
        ) by {
            assert(locs0.contains_key(x) && locs1[x] == locs0[x]);
            let c_old = m0.container(locs0[x].side, locs0[x].dormant);
            assert(found_at(c_old, locs0[x].price, x));
            if locs0[x].side == lside && locs0[x].dormant == false {
                assert(side_has_id(c0, x)) by {
                    let w = choose|w: int|
                        0 <= w < c0.len() && (#[trigger] c0[w]).price == locs0[x].price
                            && level_has_id(c0[w], x);
                    assert(level_has_id(c0[w], x));
                }
                assert(side_has_id(c1, x)) by {
                    if !side_has_id(c1, x) {
                        assert(!locs1.contains_key(x));
                    }
                }
                assert(found_at(c1, locs0[x].price, x));
            } else {
                assert(m1.container(locs0[x].side, locs0[x].dormant) == c_old);
            }
        }
    }

    assert forall|x: u64| #[trigger] m1.has_id(x) implies m0.has_id(x) by {
        if side_has_id(c1, x) {
            assert(side_has_id(c0, x));
        }
    }
}

/// Trade ids in one book-level pass are consecutive from the book's
/// counter, which moves exactly past them.
proof fn lemma_spec_pass_ids(m: BookModel, taker: Order)
    requires
        0 <= m.next_trade_id,
        m.next_trade_id + total_orders(
            if taker.side == Side::Bid {
                m.asks
            } else {
                m.bids
            },
        ) + 1 <= u64::MAX,
    ensures
        ({
            let r = spec_match_pass(m, taker);
            &&& r.1.next_trade_id == m.next_trade_id + r.0.len()
            &&& forall|k: int|
                0 <= k < r.0.len() ==> (#[trigger] r.0[k]).trade_id == m.next_trade_id + k
        }),
{
    let opp = if taker.side == Side::Bid {
        m.asks
    } else {
        m.bids
    };
    crate::matching::lemma_spec_match_ids(opp, taker, m.next_trade_id);
    lemma_spec_match_count(opp, taker, m.next_trade_id);
}

/// One pass moves the counter at most one past the orders it consumed,
/// counting the rested remainder in; the stop books are untouched.
proof fn lemma_spec_pass_count(m: BookModel, taker: Order)
    ensures
        ({
            let r = spec_match_pass(m, taker);
            &&& r.1.next_trade_id + (total_orders(r.1.bids) + total_orders(r.1.asks))
                <= m.next_trade_id + (total_orders(m.bids) + total_orders(m.asks)) + 1
            &&& r.1.stop_bids == m.stop_bids
            &&& r.1.stop_asks == m.stop_asks
        }),
{
    let opp = if taker.side == Side::Bid {
        m.asks
    } else {
        m.bids
    };
    lemma_spec_match_count(opp, taker, m.next_trade_id);
    let r0 = spec_match(opp, taker, m.next_trade_id);
    let leftover = taker.amount - trade_total(r0.0);
    if leftover > 0 && taker.order_type == OrderType::Limit {
        let rest = Order { amount: leftover as u64, ..taker };
        if taker.side == Side::Bid {
            lemma_total_add_to_side(m.bids, taker.price, rest, true);
        } else {
            lemma_total_add_to_side(m.asks, taker.price, rest, false);
        }
    }
}

/// Across a whole trigger cascade, trade ids stay consecutive from the
/// book's counter, which moves exactly past them.
proof fn lemma_spec_fire_ids(m: BookModel)
    requires
        0 <= m.next_trade_id,
        m.next_trade_id + m.stored_orders() + total_orders(m.stop_bids) + total_orders(
            m.stop_asks,
        ) <= u64::MAX,
    ensures
        ({
            let r = spec_fire(m);
            &&& r.1.next_trade_id == m.next_trade_id + r.0.len()
            &&& forall|k: int|
                0 <= k < r.0.len() ==> (#[trigger] r.0[k]).trade_id == m.next_trade_id + k
        }),
    decreases total_orders(m.stop_bids) + total_orders(m.stop_asks),
{
    match next_trigger(m) {
        None => {},
        Some((side, i)) => {
            let stops = if side == Side::Ask {
                m.stop_asks
            } else {
                m.stop_bids
            };
            if m.last_price is Some {
                lemma_first_ge(m.stop_asks, m.last_price.unwrap());
            }
            assert(0 <= i < stops.len());
            if stops[i].orders.len() == 0 {
            } else {
                let o = stops[i].orders[0];
                let m1 = if side == Side::Ask {
                    BookModel { stop_asks: pop_at(stops, i), ..m }
                } else {
                    BookModel { stop_bids: pop_at(stops, i), ..m }
                };
                let o2 = Order { order_type: OrderType::Limit, ..o };
                lemma_total_pop_at(stops, i);
                lemma_spec_pass_ids(m1, o2);
                lemma_spec_pass_count(m1, o2);
                let rp = spec_match_pass(m1, o2);
                assert(rp.1.next_trade_id + rp.1.stored_orders() + total_orders(rp.1.stop_bids)
                    + total_orders(rp.1.stop_asks) <= u64::MAX);
                lemma_spec_fire_ids(rp.1);
                let rf = spec_fire(rp.1);
                assert(spec_fire(m) == (rp.0 + rf.0, rf.1));
                assert forall|k: int|
                    0 <= k < (rp.0 + rf.0).len() implies (#[trigger] (rp.0 + rf.0)[k]).trade_id
                    == m.next_trade_id + k by {
                    if k < rp.0.len() {
                        assert((rp.0 + rf.0)[k] == rp.0[k]);
                    } else {
                        assert((rp.0 + rf.0)[k] == rf.0[k - rp.0.len()]);
                    }
                }
            }
        },
    }
}

/// Conservation at the book level: with no dormant stop orders, one
/// `process_order` call's trades never carry more quantity than the
/// incoming order brought. (A dormant stop fired by those trades adds its
/// own quantity to the call's output, so the bound is stated for books
/// whose stop books are empty.)
pub proof fn lemma_process_conserves(m: BookModel, order: Order)
    requires
        m.stop_bids == Seq::<LevelModel>::empty(),
        m.stop_asks == Seq::<LevelModel>::empty(),
        order.order_type != OrderType::StopLimit,
    ensures
        0 <= trade_total(spec_process(m, order).0) <= order.amount,
{
    let opp = if order.side == Side::Bid {
        m.asks
    } else {
        m.bids
    };
    crate::matching::lemma_conservation(opp, order, m.next_trade_id);
    let r = spec_match_pass(m, order);
    assert(r.1.stop_bids == m.stop_bids && r.1.stop_asks == m.stop_asks);
    assert(next_trigger(r.1) is None) by {
        match r.1.last_price {
            None => {},
            Some(p) => {
                assert(first_ge(r.1.stop_asks, p) is None);
                assert(r.1.stop_bids.len() == 0);
            },
        }
    }
    assert(spec_fire(r.1) == (Seq::<Trade>::empty(), r.1));
    if r.0.len() > 0 {
        assert(r.0 + Seq::<Trade>::empty() =~= r.0);
    }
}

/// A stored id is always present in a covering index.
proof fn lemma_membership_indexed(
    s: Seq<LevelModel>,
    side: Side,
    dormant: bool,
    locs: Map<u64, OrderLocation>,
    id: u64,
)
    requires
        locs_cover_side(s, side, dormant, locs),
        side_has_id(s, id),
    ensures
        locs.contains_key(id),
{
    let w = choose|w: int| 0 <= w < s.len() && level_has_id(#[trigger] s[w], id);
    let j = choose|j: int| 0 <= j < s[w].orders.len() && (#[trigger] s[w].orders[j]).id == id;
    assert(locs.contains_key(s[w].orders[j].id));
}

} // verus!
