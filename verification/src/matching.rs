//! The matching rule itself, as a mathematical function.
//!
//! `spec_match` consumes a sorted opposite side best-price-first and, inside
//! a level, oldest order first; it stops at the first level the taker does
//! not cross or when the taker is exhausted. The order book's executable
//! matching loop is proved equal to it, and the price-time-priority,
//! best-price-first and conservation laws are proved about it.

use vstd::prelude::*;

use crate::levels::{
    descending_of, flat_orders, found_at, lemma_unfiled, level_has_id, level_ids_distinct,
    level_qty, level_wf, order_fits, price_better, prices_sorted, qty_sum, side_has_id, side_qty,
    side_wf, stored_at, total_orders, LevelModel,
};
use crate::models::{Order, OrderType, Side, Trade};

verus! {

/// Whether a taker order is willing to trade at `level_price`: a Market
/// order always is, a Limit order only when its own price crosses the
/// level. A StopLimit order never matches directly.
pub open spec fn crosses(taker: Order, level_price: u64) -> bool {
    match taker.order_type {
        OrderType::Market => true,
        OrderType::Limit => match taker.side {
            Side::Bid => taker.price >= level_price,
            Side::Ask => taker.price <= level_price,
        },
        OrderType::StopLimit => false,
    }
}

/// The trade produced when the taker fills `amount` against the maker
/// order `maker_id` resting at `price` (the maker's price wins).
pub open spec fn make_trade(taker: Order, maker_id: u64, price: u64, amount: u64, tid: int) -> Trade {
    Trade {
        trade_id: tid as u64,
        buyer_order_id: if taker.side == Side::Bid {
            taker.id
        } else {
            maker_id
        },
        seller_order_id: if taker.side == Side::Bid {
            maker_id
        } else {
            taker.id
        },
        price,
        amount,
        timestamp: 0,
    }
}

/// One full matching pass of `taker` against the sorted opposite side
/// `levels`: the trades emitted (with ids counted up from `tid`), the side
/// as it remains, and the next unused trade id.
pub open spec fn spec_match(levels: Seq<LevelModel>, taker: Order, tid: int) -> (Seq<Trade>, Seq<
    LevelModel,
>, int)
    decreases total_orders(levels),
    via spec_match_decreases
{
    if taker.amount == 0 || levels.len() == 0 || !crosses(taker, levels[0].price)
        || levels[0].orders.len() == 0 {
        (seq![], levels, tid)
    } else {
        let lvl = levels[0];
        let maker = lvl.orders[0];
        if maker.amount > taker.amount {
            // The maker survives with the difference; the taker is exhausted.
            let t = make_trade(taker, maker.id, lvl.price, taker.amount, tid);
            let maker2 = Order { amount: (maker.amount - taker.amount) as u64, ..maker };
            let lvl2 = LevelModel { orders: lvl.orders.update(0, maker2), ..lvl };
            (seq![t], levels.update(0, lvl2), tid + 1)
        } else {
            // The maker is consumed whole; its level is dropped once empty.
            let t = make_trade(taker, maker.id, lvl.price, maker.amount, tid);
            let levels2 = if lvl.orders.len() == 1 {
                levels.skip(1)
            } else {
                levels.update(0, LevelModel { orders: lvl.orders.skip(1), ..lvl })
            };
            let taker2 = Order { amount: (taker.amount - maker.amount) as u64, ..taker };
            let r = spec_match(levels2, taker2, tid + 1);
            (seq![t] + r.0, r.1, r.2)
        }
    }
}

#[via_fn]
proof fn spec_match_decreases(levels: Seq<LevelModel>, taker: Order, tid: int) {
    if !(taker.amount == 0 || levels.len() == 0 || !crosses(taker, levels[0].price)
        || levels[0].orders.len() == 0) {
        let lvl = levels[0];
        if !(lvl.orders[0].amount > taker.amount) {
            if lvl.orders.len() == 1 {
                lemma_total_orders_skip(levels);
            } else {
                let levels2 = levels.update(
                    0,
                    LevelModel { orders: lvl.orders.skip(1), ..lvl },
                );
                lemma_total_orders_skip(levels);
                lemma_total_orders_skip(levels2);
                assert(levels2.skip(1) =~= levels.skip(1));
            }
        }
    }
}

/// Unfolds `total_orders` one step: the whole side holds the first level's
/// orders plus the rest.
pub proof fn lemma_total_orders_skip(s: Seq<LevelModel>)
    requires
        s.len() > 0,
    ensures
        total_orders(s) == s[0].orders.len() + total_orders(s.skip(1)),
{
}

/// The total quantity carried by a sequence of trades.
pub open spec fn trade_total(ts: Seq<Trade>) -> int
    decreases ts.len(),
{
    if ts.len() == 0 {
        0
    } else {
        ts[0].amount + trade_total(ts.skip(1))
    }
}

/// Appending a trade adds its amount to the total.
pub proof fn lemma_trade_total_push(ts: Seq<Trade>, t: Trade)
    ensures
        trade_total(ts.push(t)) == trade_total(ts) + t.amount,
    decreases ts.len(),
{
    if ts.len() == 0 {
        assert(ts.push(t)[0] == t);
        assert(ts.push(t).skip(1) =~= Seq::<Trade>::empty());
        assert(trade_total(ts.push(t)) == t.amount + trade_total(Seq::<Trade>::empty()));
    } else {
        assert(ts.push(t)[0] == ts[0]);
        assert(ts.push(t).skip(1) =~= ts.skip(1).push(t));
        lemma_trade_total_push(ts.skip(1), t);
        assert(trade_total(ts.push(t)) == ts[0].amount + trade_total(ts.skip(1).push(t)));
    }
}

/// The id of the resting (maker) order behind a trade, read off the trade
/// given the taker's side.
pub open spec fn maker_id_of(t: Trade, taker_side: Side) -> u64 {
    if taker_side == Side::Bid {
        t.seller_order_id
    } else {
        t.buyer_order_id
    }
}

/// Price-time priority: matching consumes resting orders in exactly the
/// book's order — best price level first and, within a level, arrival
/// order — so the k-th trade's maker is the k-th resting order of the
/// flattened side, and every consumed maker except possibly the last is
/// filled whole. Orders A, B, C resting at one price in that arrival
/// order therefore fill in exactly that order.
pub proof fn lemma_price_time_priority(levels: Seq<LevelModel>, taker: Order, tid: int)
    ensures
        ({
            let r = spec_match(levels, taker, tid);
            &&& r.0.len() <= flat_orders(levels).len()
            &&& forall|k: int|
                0 <= k < r.0.len() ==> maker_id_of(#[trigger] r.0[k], taker.side) == flat_orders(
                    levels,
                )[k].id && r.0[k].amount <= flat_orders(levels)[k].amount
            &&& forall|k: int|
                0 <= k < r.0.len() - 1 ==> (#[trigger] r.0[k]).amount == flat_orders(
                    levels,
                )[k].amount
        }),
    decreases total_orders(levels),
{
    let r = spec_match(levels, taker, tid);
    let flat = flat_orders(levels);
    if taker.amount == 0 || levels.len() == 0 || !crosses(taker, levels[0].price)
        || levels[0].orders.len() == 0 {
    } else {
        let lvl = levels[0];
        let maker = lvl.orders[0];
        assert(flat[0] == maker) by {
            assert(flat == lvl.orders + flat_orders(levels.skip(1)));
        }
        if maker.amount > taker.amount {
            assert(r.0.len() == 1);
            assert(maker_id_of(r.0[0], taker.side) == maker.id);
        } else {
            let levels2 = if lvl.orders.len() == 1 {
                levels.skip(1)
            } else {
                levels.update(0, LevelModel { orders: lvl.orders.skip(1), ..lvl })
            };
            let taker2 = Order { amount: (taker.amount - maker.amount) as u64, ..taker };
            lemma_total_orders_skip(levels);
            if lvl.orders.len() > 1 {
                lemma_total_orders_skip(levels2);
                assert(levels2.skip(1) =~= levels.skip(1));
            }
            assert(total_orders(levels2) == total_orders(levels) - 1);
            lemma_price_time_priority(levels2, taker2, tid + 1);
            let r2 = spec_match(levels2, taker2, tid + 1);
            let flat2 = flat_orders(levels2);
            assert(flat2 =~= flat.skip(1)) by {
                if lvl.orders.len() == 1 {
                    assert(flat == lvl.orders + flat_orders(levels.skip(1)));
                    assert(flat.skip(1) =~= flat_orders(levels.skip(1)));
                } else {
                    assert(flat2 == lvl.orders.skip(1) + flat_orders(levels2.skip(1)));
                    assert(flat == lvl.orders + flat_orders(levels.skip(1)));
                    assert(flat2 =~= flat.skip(1));
                }
            }
            assert(r.0 == seq![make_trade(taker, maker.id, lvl.price, maker.amount, tid)] + r2.0);
            assert forall|k: int|
                0 <= k < r.0.len() implies maker_id_of(#[trigger] r.0[k], taker.side) == flat[k].id
                && r.0[k].amount <= flat[k].amount by {
                if k == 0 {
                    assert(r.0[0] == make_trade(taker, maker.id, lvl.price, maker.amount, tid));
                } else {
                    assert(r.0[k] == r2.0[k - 1]);
                    assert(flat2[k - 1] == flat[k]);
                    assert(taker2.side == taker.side);
                }
            }
            assert forall|k: int|
                0 <= k < r.0.len() - 1 implies (#[trigger] r.0[k]).amount == flat[k].amount by {
                if k == 0 {
                    assert(r.0[0].amount == maker.amount);
                } else {
                    assert(r.0[k] == r2.0[k - 1]);
                    assert(flat2[k - 1] == flat[k]);
                }
            }
        }
    }
}

/// Best-price-first crossing: an incoming Buy fills at the lowest ask
/// prices first, an incoming Sell at the highest bid prices first. The
/// first trade executes at the opposite side's best price, and trade
/// prices never get better as the pass goes on. `descending` is the sort
/// direction of the opposite side the taker matches against.
pub proof fn lemma_best_price_first(
    levels: Seq<LevelModel>,
    taker: Order,
    tid: int,
    descending: bool,
)
    requires
        prices_sorted(levels, descending),
    ensures
        ({
            let r = spec_match(levels, taker, tid);
            &&& r.0.len() > 0 ==> r.0[0].price == levels[0].price
            &&& forall|k1: int, k2: int|
                0 <= k1 < k2 < r.0.len() ==> !price_better(
                    (#[trigger] r.0[k2]).price,
                    (#[trigger] r.0[k1]).price,
                    descending,
                )
        }),
    decreases total_orders(levels),
{
    let r = spec_match(levels, taker, tid);
    if taker.amount == 0 || levels.len() == 0 || !crosses(taker, levels[0].price)
        || levels[0].orders.len() == 0 {
    } else {
        let lvl = levels[0];
        let maker = lvl.orders[0];
        if maker.amount > taker.amount {
        } else {
            let levels2 = if lvl.orders.len() == 1 {
                levels.skip(1)
            } else {
                levels.update(0, LevelModel { orders: lvl.orders.skip(1), ..lvl })
            };
            let taker2 = Order { amount: (taker.amount - maker.amount) as u64, ..taker };
            lemma_total_orders_skip(levels);
            if lvl.orders.len() > 1 {
                lemma_total_orders_skip(levels2);
                assert(levels2.skip(1) =~= levels.skip(1));
            }
            assert(prices_sorted(levels2, descending)) by {
                assert forall|x: int, y: int| 0 <= x < y < levels2.len() implies price_better(
                    (#[trigger] levels2[x]).price,
                    (#[trigger] levels2[y]).price,
                    descending,
                ) by {
                    if lvl.orders.len() == 1 {
                        assert(levels2[x] == levels[x + 1] && levels2[y] == levels[y + 1]);
                    } else {
                        assert(levels2[x].price == levels[x].price && levels2[y].price
                            == levels[y].price);
                    }
                }
            }
            lemma_best_price_first(levels2, taker2, tid + 1, descending);
            let r2 = spec_match(levels2, taker2, tid + 1);
            assert(r.0 == seq![make_trade(taker, maker.id, lvl.price, maker.amount, tid)] + r2.0);
            // No later trade prices a level better than the front one.
            assert(r2.0.len() > 0 ==> !price_better(r2.0[0].price, lvl.price, descending)) by {
                if r2.0.len() > 0 {
                    if lvl.orders.len() == 1 {
                        if levels2.len() > 0 {
                            assert(r2.0[0].price == levels2[0].price);
                            assert(levels2[0] == levels[1]);
                            assert(price_better(levels[0].price, levels[1].price, descending));
                        }
                    } else {
                        assert(r2.0[0].price == levels2[0].price);
                        assert(levels2[0].price == lvl.price);
                    }
                }
            }
            assert forall|k1: int, k2: int|
                0 <= k1 < k2 < r.0.len() implies !price_better(
                (#[trigger] r.0[k2]).price,
                (#[trigger] r.0[k1]).price,
                descending,
            ) by {
                if k1 == 0 {
                    assert(r.0[0].price == lvl.price);
                    assert(r.0[k2] == r2.0[k2 - 1]);
                    if k2 - 1 > 0 {
                        assert(!price_better(r2.0[k2 - 1].price, r2.0[0].price, descending));
                    }
                } else {
                    assert(r.0[k1] == r2.0[k1 - 1] && r.0[k2] == r2.0[k2 - 1]);
                }
            }
        }
    }
}

/// Conservation: a matching pass never trades more than the incoming
/// order's quantity, and the quantity the book loses is exactly the
/// quantity the trades carry — no resting quantity ever goes negative or
/// appears from nowhere.
pub proof fn lemma_conservation(levels: Seq<LevelModel>, taker: Order, tid: int)
    ensures
        ({
            let r = spec_match(levels, taker, tid);
            &&& 0 <= trade_total(r.0) <= taker.amount
            &&& side_qty(levels) == side_qty(r.1) + trade_total(r.0)
        }),
    decreases total_orders(levels),
{
    let r = spec_match(levels, taker, tid);
    lemma_spec_match_count(levels, taker, tid);
    if taker.amount == 0 || levels.len() == 0 || !crosses(taker, levels[0].price)
        || levels[0].orders.len() == 0 {
    } else {
        let lvl = levels[0];
        let maker = lvl.orders[0];
        if maker.amount > taker.amount {
            let maker2 = Order { amount: (maker.amount - taker.amount) as u64, ..maker };
            let lvl2 = LevelModel { orders: lvl.orders.update(0, maker2), ..lvl };
            let levels2 = levels.update(0, lvl2);
            assert(r.0.skip(1) =~= Seq::<Trade>::empty());
            assert(trade_total(r.0) == taker.amount + trade_total(Seq::<Trade>::empty()));
            assert(levels2.skip(1) =~= levels.skip(1));
            assert(side_qty(levels2) == level_qty(lvl2) + side_qty(levels2.skip(1)));
            assert(side_qty(levels) == level_qty(lvl) + side_qty(levels.skip(1)));
            assert(level_qty(lvl2) == level_qty(lvl) - taker.amount) by {
                assert(lvl2.orders.skip(1) =~= lvl.orders.skip(1));
                assert(qty_sum(lvl2.orders) == maker2.amount + qty_sum(lvl2.orders.skip(1)));
                assert(qty_sum(lvl.orders) == maker.amount + qty_sum(lvl.orders.skip(1)));
            }
        } else {
            let levels2 = if lvl.orders.len() == 1 {
                levels.skip(1)
            } else {
                levels.update(0, LevelModel { orders: lvl.orders.skip(1), ..lvl })
            };
            let taker2 = Order { amount: (taker.amount - maker.amount) as u64, ..taker };
            lemma_total_orders_skip(levels);
            if lvl.orders.len() > 1 {
                lemma_total_orders_skip(levels2);
                assert(levels2.skip(1) =~= levels.skip(1));
            }
            assert(total_orders(levels2) == total_orders(levels) - 1);
            lemma_conservation(levels2, taker2, tid + 1);
            let r2 = spec_match(levels2, taker2, tid + 1);
            assert(r.0 == seq![make_trade(taker, maker.id, lvl.price, maker.amount, tid)] + r2.0);
            assert(r.0.skip(1) =~= r2.0);
            assert(r.0[0].amount == maker.amount);
            assert(trade_total(r.0) == maker.amount + trade_total(r2.0));
            assert(side_qty(levels2) == side_qty(levels) - maker.amount) by {
                assert(side_qty(levels) == level_qty(lvl) + side_qty(levels.skip(1)));
                assert(qty_sum(lvl.orders) == maker.amount + qty_sum(lvl.orders.skip(1)));
                if lvl.orders.len() == 1 {
                    assert(qty_sum(lvl.orders.skip(1)) == 0) by {
                        assert(lvl.orders.skip(1) =~= Seq::<Order>::empty());
                    }
                } else {
                    assert(side_qty(levels2) == level_qty(levels2[0]) + side_qty(levels2.skip(1)));
                }
            }
        }
    }
}

/// Counting facts about one matching pass: trade ids advance by one per
/// trade, the side only shrinks, at most one trade beyond the orders
/// consumed is emitted, and the matched quantity never exceeds the taker's.
pub proof fn lemma_spec_match_count(levels: Seq<LevelModel>, taker: Order, tid: int)
    ensures
        ({
            let r = spec_match(levels, taker, tid);
            &&& r.2 == tid + r.0.len()
            &&& total_orders(r.1) <= total_orders(levels)
            &&& r.0.len() + total_orders(r.1) <= total_orders(levels) + 1
            &&& 0 <= trade_total(r.0) <= taker.amount
            &&& trade_total(r.0) < taker.amount ==> r.0.len() + total_orders(r.1) <= total_orders(
                levels,
            )
        }),
    decreases total_orders(levels),
{
    let r = spec_match(levels, taker, tid);
    if taker.amount == 0 || levels.len() == 0 || !crosses(taker, levels[0].price)
        || levels[0].orders.len() == 0 {
    } else {
        let lvl = levels[0];
        let maker = lvl.orders[0];
        if maker.amount > taker.amount {
            let maker2 = Order { amount: (maker.amount - taker.amount) as u64, ..maker };
            let lvl2 = LevelModel { orders: lvl.orders.update(0, maker2), ..lvl };
            let levels2 = levels.update(0, lvl2);
            lemma_total_orders_skip(levels);
            lemma_total_orders_skip(levels2);
            assert(levels2.skip(1) =~= levels.skip(1));
            assert(r.0.skip(1) =~= Seq::<Trade>::empty());
            assert(r.0[0].amount == taker.amount);
            assert(trade_total(Seq::<Trade>::empty()) == 0);
            assert(trade_total(r.0) == r.0[0].amount + trade_total(r.0.skip(1)));
        } else {
            let levels2 = if lvl.orders.len() == 1 {
                levels.skip(1)
            } else {
                levels.update(0, LevelModel { orders: lvl.orders.skip(1), ..lvl })
            };
            let taker2 = Order { amount: (taker.amount - maker.amount) as u64, ..taker };
            lemma_total_orders_skip(levels);
            if lvl.orders.len() > 1 {
                lemma_total_orders_skip(levels2);
                assert(levels2.skip(1) =~= levels.skip(1));
            }
            assert(total_orders(levels2) == total_orders(levels) - 1);
            lemma_spec_match_count(levels2, taker2, tid + 1);
            let r2 = spec_match(levels2, taker2, tid + 1);
            assert(r.0 == seq![make_trade(taker, maker.id, lvl.price, maker.amount, tid)] + r2.0);
            assert(r.0.skip(1) =~= r2.0);
            assert(r.0[0].amount == maker.amount);
            assert(trade_total(r.0) == maker.amount + trade_total(r2.0));
        }
    }
}

/// Trade ids within one pass are consecutive, starting at `tid`: with
/// enough room left in the id counter, the k-th trade carries id `tid + k`.
pub proof fn lemma_spec_match_ids(levels: Seq<LevelModel>, taker: Order, tid: int)
    requires
        0 <= tid,
        tid + total_orders(levels) + 1 <= u64::MAX,
    ensures
        ({
            let r = spec_match(levels, taker, tid);
            forall|k: int| 0 <= k < r.0.len() ==> (#[trigger] r.0[k]).trade_id == tid + k
        }),
    decreases total_orders(levels),
{
    let r = spec_match(levels, taker, tid);
    if taker.amount == 0 || levels.len() == 0 || !crosses(taker, levels[0].price)
        || levels[0].orders.len() == 0 {
    } else {
        let lvl = levels[0];
        let maker = lvl.orders[0];
        lemma_total_orders_skip(levels);
        if maker.amount > taker.amount {
            assert(r.0[0].trade_id == tid as u64);
        } else {
            let levels2 = if lvl.orders.len() == 1 {
                levels.skip(1)
            } else {
                levels.update(0, LevelModel { orders: lvl.orders.skip(1), ..lvl })
            };
            let taker2 = Order { amount: (taker.amount - maker.amount) as u64, ..taker };
            if lvl.orders.len() > 1 {
                lemma_total_orders_skip(levels2);
                assert(levels2.skip(1) =~= levels.skip(1));
            }
            assert(total_orders(levels2) == total_orders(levels) - 1);
            lemma_spec_match_ids(levels2, taker2, tid + 1);
            let r2 = spec_match(levels2, taker2, tid + 1);
            assert(r.0 == seq![make_trade(taker, maker.id, lvl.price, maker.amount, tid)] + r2.0);
            assert forall|k: int| 0 <= k < r.0.len() implies (#[trigger] r.0[k]).trade_id == tid
                + k by {
                if k == 0 {
                    assert(r.0[0].trade_id == tid as u64);
                } else {
                    assert(r.0[k] == r2.0[k - 1]);
                }
            }
        }
    }
}

/// One step of matching that consumes the front maker whole: the shape of
/// the side that remains, with everything the book needs about it. The
/// caller warrants that the maker's id lives only at the front level.
pub proof fn lemma_match_step_consume(s: Seq<LevelModel>, lside: Side)
    requires
        side_wf(s, lside, false),
        s.len() > 0,
        s[0].orders.len() > 0,
        forall|i: int|
            0 <= i < s.len() && level_has_id(#[trigger] s[i], s[0].orders[0].id) ==> i == 0,
    ensures
        ({
            let id = s[0].orders[0].id;
            let s2 = if s[0].orders.len() == 1 {
                s.skip(1)
            } else {
                s.update(0, LevelModel { price: s[0].price, orders: s[0].orders.skip(1) })
            };
            &&& side_wf(s2, lside, false)
            &&& total_orders(s2) == total_orders(s) - 1
            &&& forall|x: u64| side_has_id(s2, x) == (side_has_id(s, x) && x != id)
            &&& forall|k2: u64, x: u64| x != id && found_at(s, k2, x) ==> found_at(s2, k2, x)
            &&& forall|i: int, j: int|
                0 <= i < s2.len() && 0 <= j < s2[i].orders.len() ==> stored_at(
                    s,
                    s2[i].price,
                    #[trigger] s2[i].orders[j],
                ) && s2[i].orders[j].id != id
        }),
{
    let id = s[0].orders[0].id;
    let s1 = if s[0].orders.len() == 1 {
        s.remove(0)
    } else {
        s.update(0, LevelModel { price: s[0].price, orders: s[0].orders.remove(0) })
    };
    lemma_unfiled(s, id, lside, false, 0, 0);
    assert(s[0].orders.remove(0) =~= s[0].orders.skip(1));
    assert(s.remove(0) =~= s.skip(1));
    let s2 = if s[0].orders.len() == 1 {
        s.skip(1)
    } else {
        s.update(0, LevelModel { price: s[0].price, orders: s[0].orders.skip(1) })
    };
    assert(s2 == s1);
    lemma_total_orders_skip(s);
    if s[0].orders.len() == 1 {
    } else {
        lemma_total_orders_skip(s2);
        assert(s2.skip(1) =~= s.skip(1));
    }
}

/// One step of matching that only shrinks the front maker's amount: the
/// side keeps its exact shape, prices and ids.
pub proof fn lemma_match_step_partial(s: Seq<LevelModel>, lside: Side, newamt: u64)
    requires
        side_wf(s, lside, false),
        s.len() > 0,
        s[0].orders.len() > 0,
        newamt > 0,
    ensures
        ({
            let s2 = s.update(
                0,
                LevelModel {
                    price: s[0].price,
                    orders: s[0].orders.update(0, Order { amount: newamt, ..s[0].orders[0] }),
                },
            );
            &&& side_wf(s2, lside, false)
            &&& total_orders(s2) == total_orders(s)
            &&& s2.len() == s.len()
            &&& forall|i: int| 0 <= i < s2.len() ==> (#[trigger] s2[i]).price == s[i].price
                && s2[i].orders.len() == s[i].orders.len()
            &&& forall|i: int, j: int|
                0 <= i < s2.len() && 0 <= j < s2[i].orders.len() ==> (#[trigger] s2[i].orders[j]).id
                    == s[i].orders[j].id
            &&& forall|x: u64| side_has_id(s2, x) == side_has_id(s, x)
            &&& forall|k2: u64, x: u64| found_at(s, k2, x) ==> found_at(s2, k2, x)
        }),
{
    let s2 = s.update(
        0,
        LevelModel {
            price: s[0].price,
            orders: s[0].orders.update(0, Order { amount: newamt, ..s[0].orders[0] }),
        },
    );
    assert forall|i: int| 0 <= i < s2.len() implies (#[trigger] s2[i]).price == s[i].price
        && s2[i].orders.len() == s[i].orders.len() by {}
    assert forall|i: int, j: int|
        0 <= i < s2.len() && 0 <= j < s2[i].orders.len() implies (#[trigger] s2[i].orders[j]).id
        == s[i].orders[j].id by {}
    assert(side_wf(s2, lside, false)) by {
        assert forall|x: int, y: int| 0 <= x < y < s2.len() implies price_better(
            (#[trigger] s2[x]).price,
            (#[trigger] s2[y]).price,
            descending_of(lside, false),
        ) by {
            assert(price_better(s[x].price, s[y].price, descending_of(lside, false)));
        }
        assert forall|w: int| 0 <= w < s2.len() implies level_wf(#[trigger] s2[w], lside, false)
            && level_ids_distinct(s2[w]) by {
            assert(level_wf(s[w], lside, false));
            assert(level_ids_distinct(s[w]));
            assert forall|j: int| 0 <= j < s2[w].orders.len() implies order_fits(
                #[trigger] s2[w].orders[j],
                lside,
                s2[w].price,
                false,
            ) by {
                assert(order_fits(s[w].orders[j], lside, s[w].price, false));
            }
            assert forall|k1: int, k2: int| 0 <= k1 < k2 < s2[w].orders.len() implies (
            #[trigger] s2[w].orders[k1]).id != (#[trigger] s2[w].orders[k2]).id by {
                assert(s[w].orders[k1].id != s[w].orders[k2].id);
            }
        }
    }
    assert(total_orders(s2) == total_orders(s)) by {
        lemma_total_orders_skip(s);
        lemma_total_orders_skip(s2);
        assert(s2.skip(1) =~= s.skip(1));
    }
    assert forall|x: u64| side_has_id(s2, x) == side_has_id(s, x) by {
        if side_has_id(s, x) {
            let w = choose|w: int| 0 <= w < s.len() && level_has_id(#[trigger] s[w], x);
            let j = choose|j: int| 0 <= j < s[w].orders.len() && (#[trigger] s[w].orders[j]).id == x;
            assert(s2[w].orders[j].id == x);
            assert(level_has_id(s2[w], x));
        }
        if side_has_id(s2, x) {
            let w = choose|w: int| 0 <= w < s2.len() && level_has_id(#[trigger] s2[w], x);
            let j = choose|j: int|
                0 <= j < s2[w].orders.len() && (#[trigger] s2[w].orders[j]).id == x;
            assert(s[w].orders[j].id == x);
            assert(level_has_id(s[w], x));
        }
    }
    assert forall|k2: u64, x: u64| found_at(s, k2, x) implies found_at(s2, k2, x) by {
        let w = choose|w: int|
            0 <= w < s.len() && (#[trigger] s[w]).price == k2 && level_has_id(s[w], x);
        let j = choose|j: int| 0 <= j < s[w].orders.len() && (#[trigger] s[w].orders[j]).id == x;
        assert(s2[w].orders[j].id == x);
        assert(level_has_id(s2[w], x));
        assert(s2[w].price == k2);
    }
}

} // verus!
