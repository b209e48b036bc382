//! Price levels: the ordered building blocks of one side of a book.
//!
//! A side of the book is a `Vec<Level>` kept sorted by price — descending
//! for bids, ascending for asks and for the dormant stop books (the latter
//! are keyed by trigger price). Its mathematical content is a
//! `Seq<LevelModel>`, over which all the book's contracts are stated.

use vstd::prelude::*;

use crate::models::{Order, OrderType, Side};

verus! {

/// All orders resting at one price, oldest first (index 0 fills first).
/// In a dormant stop book `price` holds the trigger price instead.
#[derive(Debug)]
pub struct Level {
    pub price: u64,
    pub orders: Vec<Order>,
}

/// The mathematical content of one `Level`.
#[verifier::ext_equal]
pub struct LevelModel {
    pub price: u64,
    pub orders: Seq<Order>,
}

impl View for Level {
    type V = LevelModel;

    open spec fn view(&self) -> LevelModel {
        LevelModel { price: self.price, orders: self.orders@ }
    }
}

/// The mathematical content of one side of a book.
pub open spec fn side_view(levels: Seq<Level>) -> Seq<LevelModel> {
    levels.map_values(|l: Level| l@)
}

/// Whether a side is kept best-price-first with descending prices.
/// Bids descend (best bid is the highest price); asks ascend. The dormant
/// stop books both ascend by trigger price.
pub open spec fn side_descending(side: Side) -> bool {
    side == Side::Bid
}

/// Whether price `a` sorts strictly ahead of price `b` on a side with the
/// given direction.
pub open spec fn price_better(a: u64, b: u64, descending: bool) -> bool {
    if descending {
        a > b
    } else {
        a < b
    }
}

/// Strict price ordering of a side's levels: the level at index 0 holds
/// the best price, and no two levels share a price.
pub open spec fn prices_sorted(s: Seq<LevelModel>, descending: bool) -> bool {
    forall|i: int, j: int|
        0 <= i < j < s.len() ==> price_better((#[trigger] s[i]).price, (#[trigger] s[j]).price, descending)
}

/// What must hold of an order stored under key `key` (a price, or a
/// trigger price for a dormant stop order) on side `side`.
pub open spec fn order_fits(o: Order, side: Side, key: u64, dormant: bool) -> bool {
    &&& o.amount > 0
    &&& o.side == side
    &&& if dormant {
        o.order_type == OrderType::StopLimit && o.trigger_price == Some(key)
    } else {
        o.order_type == OrderType::Limit && o.price == key
    }
}

/// A well-formed level: non-empty, and every order in it belongs there.
pub open spec fn level_wf(l: LevelModel, side: Side, dormant: bool) -> bool {
    &&& l.orders.len() > 0
    &&& forall|j: int| 0 <= j < l.orders.len() ==> order_fits(#[trigger] l.orders[j], side, l.price, dormant)
}

/// No two orders within one level share an id.
pub open spec fn level_ids_distinct(l: LevelModel) -> bool {
    forall|j1: int, j2: int|
        0 <= j1 < j2 < l.orders.len() ==> (#[trigger] l.orders[j1]).id != (#[trigger] l.orders[j2]).id
}

/// A well-formed side: sorted, with well-formed levels whose orders carry
/// pairwise-distinct ids.
pub open spec fn side_wf(s: Seq<LevelModel>, side: Side, dormant: bool) -> bool {
    &&& prices_sorted(s, side_descending(side) && !dormant)
    &&& forall|i: int| 0 <= i < s.len() ==> level_wf(#[trigger] s[i], side, dormant)
    &&& forall|i: int| 0 <= i < s.len() ==> level_ids_distinct(#[trigger] s[i])
}

/// Whether some order with this id is stored in the level.
pub open spec fn level_has_id(l: LevelModel, id: u64) -> bool {
    exists|j: int| 0 <= j < l.orders.len() && (#[trigger] l.orders[j]).id == id
}

/// Whether some order with this id is stored anywhere on the side.
pub open spec fn side_has_id(s: Seq<LevelModel>, id: u64) -> bool {
    exists|i: int| 0 <= i < s.len() && level_has_id(#[trigger] s[i], id)
}

/// The number of orders stored on a side, over all its levels.
pub open spec fn total_orders(s: Seq<LevelModel>) -> nat
    decreases s.len(),
{
    if s.len() == 0 {
        0
    } else {
        s[0].orders.len() + total_orders(s.skip(1))
    }
}

/// The total resting quantity at one level.
pub open spec fn level_qty(l: LevelModel) -> int {
    qty_sum(l.orders)
}

/// The total resting quantity over all of a side's levels.
pub open spec fn side_qty(s: Seq<LevelModel>) -> int
    decreases s.len(),
{
    if s.len() == 0 {
        0
    } else {
        level_qty(s[0]) + side_qty(s.skip(1))
    }
}

/// The orders stored on a side, flattened best level first, oldest order
/// first within a level: the exact order in which matching consumes them.
pub open spec fn flat_orders(s: Seq<LevelModel>) -> Seq<Order>
    decreases s.len(),
{
    if s.len() == 0 {
        Seq::<Order>::empty()
    } else {
        s[0].orders + flat_orders(s.skip(1))
    }
}

/// The sum of the amounts of a sequence of orders.
pub open spec fn qty_sum(os: Seq<Order>) -> int
    decreases os.len(),
{
    if os.len() == 0 {
        0
    } else {
        os[0].amount + qty_sum(os.skip(1))
    }
}

/// A side after a new order is filed under key `key`: appended to the tail
/// of the existing level with that key, or placed in a fresh level inserted
/// at its sorted position.
pub open spec fn add_to_side(s: Seq<LevelModel>, key: u64, o: Order, descending: bool) -> Seq<
    LevelModel,
>
    decreases s.len(),
{
    if s.len() == 0 {
        seq![LevelModel { price: key, orders: seq![o] }]
    } else if s[0].price == key {
        s.update(0, LevelModel { price: key, orders: s[0].orders.push(o) })
    } else if price_better(key, s[0].price, descending) {
        seq![LevelModel { price: key, orders: seq![o] }] + s
    } else {
        seq![s[0]] + add_to_side(s.skip(1), key, o, descending)
    }
}

/// The side with the first order carrying `id` taken out of the first
/// level storing it; the level is dropped entirely once it empties. A side
/// without that id comes back unchanged.
pub open spec fn cancel_on_side(s: Seq<LevelModel>, id: u64) -> Seq<LevelModel>
    decreases s.len(),
{
    if s.len() == 0 {
        s
    } else if level_has_id(s[0], id) {
        let l2 = LevelModel { orders: remove_order(s[0].orders, id), ..s[0] };
        if l2.orders.len() == 0 {
            s.skip(1)
        } else {
            s.update(0, l2)
        }
    } else {
        seq![s[0]] + cancel_on_side(s.skip(1), id)
    }
}

/// The sequence of orders with the first order carrying `id` taken out.
pub open spec fn remove_order(os: Seq<Order>, id: u64) -> Seq<Order>
    decreases os.len(),
{
    if os.len() == 0 {
        os
    } else if os[0].id == id {
        os.skip(1)
    } else {
        seq![os[0]] + remove_order(os.skip(1), id)
    }
}

/// The top `limit` levels of a side as (price, total quantity) pairs,
/// best price first.
pub open spec fn depth_view(s: Seq<LevelModel>, limit: int) -> Seq<(u64, u128)> {
    Seq::new(if limit < s.len() { limit as nat } else { s.len() }, |i: int| (s[i].price, level_qty(s[i]) as u128))
}

/// A level with key `key` exists on the side and stores an order with
/// this id.
pub open spec fn found_at(s: Seq<LevelModel>, key: u64, id: u64) -> bool {
    exists|i: int| 0 <= i < s.len() && (#[trigger] s[i]).price == key && level_has_id(s[i], id)
}

/// Some level stores exactly this order under this key.
pub open spec fn stored_at(s: Seq<LevelModel>, key: u64, o: Order) -> bool {
    exists|i: int, j: int|
        0 <= i < s.len() && 0 <= j < s[i].orders.len() && s[i].price == key && (#[trigger] s[i].orders[j]) == o
}

/// How a side looks after an order was filed into it under key `key`:
/// the `add_to_side` equation together with everything the book needs to
/// re-establish its invariant — well-formedness, how membership changed,
/// and that every stored order is either the new one or one carried over
/// at its old key.
pub open spec fn filed(
    s0: Seq<LevelModel>,
    s1: Seq<LevelModel>,
    key: u64,
    order: Order,
    side: Side,
    dormant: bool,
) -> bool {
    &&& s1 == add_to_side(s0, key, order, side_descending(side) && !dormant)
    &&& side_wf(s1, side, dormant)
    &&& forall|x: u64| side_has_id(s1, x) == (side_has_id(s0, x) || x == order.id)
    &&& forall|k2: u64, x: u64| found_at(s0, k2, x) ==> found_at(s1, k2, x)
    &&& found_at(s1, key, order.id)
    &&& forall|i: int, j: int|
        0 <= i < s1.len() && 0 <= j < s1[i].orders.len() ==> ((#[trigger] s1[i].orders[j]) == order
            && s1[i].price == key) || stored_at(s0, s1[i].price, s1[i].orders[j])
}

/// Whether `a` sorts strictly ahead of `b`; the executable twin of
/// `price_better`.
fn beats(a: u64, b: u64, descending: bool) -> (r: bool)
    ensures
        r == price_better(a, b, descending),
{
    if descending {
        a > b
    } else {
        a < b
    }
}

/// Files an order into a side under key `key`, keeping the side sorted:
/// appended to the level already holding `key`, or opening a fresh level
/// at the sorted position.
#[verifier::loop_isolation(false)]
pub(crate) fn file_order(
    levels: &mut Vec<Level>,
    key: u64,
    order: Order,
    descending: bool,
    Ghost(side): Ghost<Side>,
    Ghost(dormant): Ghost<bool>,
)
    requires
        side_wf(side_view(old(levels)@), side, dormant),
        descending == (side_descending(side) && !dormant),
        order_fits(order, side, key, dormant),
        !side_has_id(side_view(old(levels)@), order.id),
    ensures
        filed(side_view(old(levels)@), side_view(final(levels)@), key, order, side, dormant),
{
    let ghost s0 = side_view(levels@);
    let mut i: usize = 0;
    while i < levels.len() && beats(levels[i].price, key, descending)
        invariant
            0 <= i <= levels.len(),
            forall|k: int| 0 <= k < i ==> price_better((#[trigger] s0[k]).price, key, descending),
        decreases levels.len() - i,
    {
        assert(s0[i as int] == levels@[i as int]@);
        i += 1;
    }
    assert(i < s0.len() ==> !price_better(s0[i as int].price, key, descending)) by {
        if i < levels.len() {
            assert(s0[i as int] == levels@[i as int]@);
        }
    }
    proof {
        lemma_add_to_side_at(s0, key, order, descending, i as int);
    }
    if i < levels.len() && levels[i].price == key {
        let lvl = &mut levels[i];
        assert(lvl@ == s0[i as int]);
        lvl.orders.push(order);
        proof {
            let s1 = side_view(levels@);
            assert(s1 =~= s0.update(
                i as int,
                LevelModel { price: key, orders: s0[i as int].orders.push(order) },
            ));
            lemma_filed_update(s0, key, order, side, dormant, descending, i as int);
        }
    } else {
        let ghost v0 = levels@;
        let mut os: Vec<Order> = Vec::new();
        os.push(order);
        let new_level = Level { price: key, orders: os };
        let ghost nl = new_level;
        levels.insert(i, new_level);
        proof {
            let fresh = LevelModel { price: key, orders: seq![order] };
            assert(nl@ =~= fresh);
            let s1 = side_view(levels@);
            v0.insert_ensures(i as int, nl);
            s0.insert_ensures(i as int, fresh);
            assert(s1 =~= s0.insert(i as int, fresh)) by {
                assert forall|k: int| 0 <= k < s1.len() implies s1[k] == s0.insert(
                    i as int,
                    fresh,
                )[k] by {
                    assert(s1[k] == levels@[k]@);
                    if k < i as int {
                        assert(levels@[k] == v0[k]);
                        assert(s0[k] == v0[k]@);
                    } else if k == i as int {
                        assert(levels@[k] == nl);
                    } else {
                        assert(levels@[k] == v0[k - 1]);
                        assert(s0[k - 1] == v0[k - 1]@);
                    }
                }
            }
            lemma_filed_insert(s0, key, order, side, dormant, descending, i as int);
        }
    }
}

/// Filing an order into the existing level at its key keeps the side well
/// formed and only adds that one order.
proof fn lemma_filed_update(
    s0: Seq<LevelModel>,
    key: u64,
    order: Order,
    side: Side,
    dormant: bool,
    descending: bool,
    i: int,
)
    requires
        side_wf(s0, side, dormant),
        descending == (side_descending(side) && !dormant),
        order_fits(order, side, key, dormant),
        !side_has_id(s0, order.id),
        0 <= i < s0.len(),
        s0[i].price == key,
    ensures
        ({
            let s1 = s0.update(i, LevelModel { price: key, orders: s0[i].orders.push(order) });
            &&& side_wf(s1, side, dormant)
            &&& forall|x: u64| side_has_id(s1, x) == (side_has_id(s0, x) || x == order.id)
            &&& forall|k2: u64, x: u64| found_at(s0, k2, x) ==> found_at(s1, k2, x)
            &&& found_at(s1, key, order.id)
            &&& forall|i2: int, j2: int|
                0 <= i2 < s1.len() && 0 <= j2 < s1[i2].orders.len() ==> ((#[trigger] s1[i2].orders[j2])
                    == order && s1[i2].price == key) || stored_at(s0, s1[i2].price, s1[i2].orders[j2])
        }),
{
    let lvl1 = LevelModel { price: key, orders: s0[i].orders.push(order) };
    let s1 = s0.update(i, lvl1);
    let n = s0[i].orders.len() as int;
    assert(forall|j: int| 0 <= j < n ==> lvl1.orders[j] == s0[i].orders[j]);
    assert(lvl1.orders[n] == order);

    assert(level_wf(lvl1, side, dormant));
    assert(level_ids_distinct(lvl1)) by {
        assert forall|j1: int, j2: int| 0 <= j1 < j2 < lvl1.orders.len() implies (#[trigger] lvl1
            .orders[j1]).id != (#[trigger] lvl1.orders[j2]).id by {
            if j2 == n {
                if lvl1.orders[j1].id == order.id {
                    assert(level_has_id(s0[i], order.id));
                    assert(side_has_id(s0, order.id));
                }
            }
        }
    }
    assert(side_wf(s1, side, dormant));

    assert forall|x: u64| side_has_id(s1, x) == (side_has_id(s0, x) || x == order.id) by {
        if side_has_id(s0, x) {
            let w = choose|w: int| 0 <= w < s0.len() && level_has_id(#[trigger] s0[w], x);
            if w == i {
                let j = choose|j: int| 0 <= j < s0[i].orders.len() && (#[trigger] s0[i].orders[j]).id == x;
                assert(lvl1.orders[j].id == x);
                assert(level_has_id(s1[i], x));
            } else {
                assert(level_has_id(s1[w], x));
            }
            assert(side_has_id(s1, x));
        }
        if x == order.id {
            assert(lvl1.orders[n].id == x);
            assert(level_has_id(s1[i], x));
            assert(side_has_id(s1, x));
        }
        if side_has_id(s1, x) {
            let w = choose|w: int| 0 <= w < s1.len() && level_has_id(#[trigger] s1[w], x);
            let j = choose|j: int| 0 <= j < s1[w].orders.len() && (#[trigger] s1[w].orders[j]).id == x;
            if w == i {
                if j == n {
                    assert(x == order.id);
                } else {
                    assert(s0[w].orders[j].id == x);
                    assert(level_has_id(s0[w], x));
                    assert(side_has_id(s0, x));
                }
            } else {
                assert(level_has_id(s0[w], x));
                assert(side_has_id(s0, x));
            }
        }
    }

    assert forall|k2: u64, x: u64| found_at(s0, k2, x) implies found_at(s1, k2, x) by {
        let w = choose|w: int|
            0 <= w < s0.len() && (#[trigger] s0[w]).price == k2 && level_has_id(s0[w], x);
        if w == i {
            let j = choose|j: int| 0 <= j < s0[i].orders.len() && (#[trigger] s0[i].orders[j]).id == x;
            assert(lvl1.orders[j].id == x);
            assert(s1[w].price == k2 && level_has_id(s1[w], x));
        } else {
            assert(s1[w].price == k2 && level_has_id(s1[w], x));
        }
    }

    assert(lvl1.orders[n].id == order.id);
    assert(level_has_id(s1[i], order.id));
    assert(found_at(s1, key, order.id));

    assert forall|i2: int, j2: int|
        0 <= i2 < s1.len() && 0 <= j2 < s1[i2].orders.len() implies ((#[trigger] s1[i2].orders[j2])
        == order && s1[i2].price == key) || stored_at(s0, s1[i2].price, s1[i2].orders[j2]) by {
        if i2 == i {
            if j2 < n {
                assert(s0[i2].orders[j2] == s1[i2].orders[j2]);
                assert(stored_at(s0, s1[i2].price, s1[i2].orders[j2]));
            }
        } else {
            assert(s0[i2].orders[j2] == s1[i2].orders[j2]);
            assert(stored_at(s0, s1[i2].price, s1[i2].orders[j2]));
        }
    }
}

/// Filing an order into a fresh level at its sorted position keeps the
/// side well formed and only adds that one order.
proof fn lemma_filed_insert(
    s0: Seq<LevelModel>,
    key: u64,
    order: Order,
    side: Side,
    dormant: bool,
    descending: bool,
    i: int,
)
    requires
        side_wf(s0, side, dormant),
        descending == (side_descending(side) && !dormant),
        order_fits(order, side, key, dormant),
        !side_has_id(s0, order.id),
        0 <= i <= s0.len(),
        forall|k: int| 0 <= k < i ==> price_better((#[trigger] s0[k]).price, key, descending),
        i < s0.len() ==> !price_better(s0[i].price, key, descending) && s0[i].price != key,
    ensures
        ({
            let s1 = s0.insert(i, LevelModel { price: key, orders: seq![order] });
            &&& side_wf(s1, side, dormant)
            &&& forall|x: u64| side_has_id(s1, x) == (side_has_id(s0, x) || x == order.id)
            &&& forall|k2: u64, x: u64| found_at(s0, k2, x) ==> found_at(s1, k2, x)
            &&& found_at(s1, key, order.id)
            &&& forall|i2: int, j2: int|
                0 <= i2 < s1.len() && 0 <= j2 < s1[i2].orders.len() ==> ((#[trigger] s1[i2].orders[j2])
                    == order && s1[i2].price == key) || stored_at(s0, s1[i2].price, s1[i2].orders[j2])
        }),
{
    let fresh = LevelModel { price: key, orders: seq![order] };
    let s1 = s0.insert(i, fresh);
    s0.insert_ensures(i, fresh);

    assert(prices_sorted(s1, descending)) by {
        assert forall|x: int, y: int| 0 <= x < y < s1.len() implies price_better(
            (#[trigger] s1[x]).price,
            (#[trigger] s1[y]).price,
            descending,
        ) by {
            if x < i {
                assert(s1[x] == s0[x]);
            } else if x > i {
                assert(s1[x] == s0[x - 1]);
            }
            if y < i {
                assert(s1[y] == s0[y]);
            } else if y > i {
                assert(s1[y] == s0[y - 1]);
            }
            if y < i {
                assert(price_better(s0[x].price, s0[y].price, descending));
            } else if y == i {
                assert(price_better(s0[x].price, key, descending));
            } else if x < i {
                assert(price_better(s0[x].price, s0[y - 1].price, descending));
            } else if x == i {
                assert(i < s0.len());
                assert(price_better(key, s0[i].price, descending));
                if y - 1 > i {
                    assert(price_better(s0[i].price, s0[y - 1].price, descending));
                }
            } else {
                assert(price_better(s0[x - 1].price, s0[y - 1].price, descending));
            }
        }
    }

    assert forall|w: int| 0 <= w < s1.len() implies level_wf(#[trigger] s1[w], side, dormant)
        && level_ids_distinct(s1[w]) by {
        if w < i {
            assert(s1[w] == s0[w]);
        } else if w == i {
            assert(s1[w] == fresh);
            assert(fresh.orders[0] == order);
        } else {
            assert(s1[w] == s0[w - 1]);
        }
    }

    assert forall|x: u64| side_has_id(s1, x) == (side_has_id(s0, x) || x == order.id) by {
        if side_has_id(s0, x) {
            let w = choose|w: int| 0 <= w < s0.len() && level_has_id(#[trigger] s0[w], x);
            if w < i {
                assert(level_has_id(s1[w], x));
            } else {
                assert(s1[w + 1] == s0[w]);
                assert(level_has_id(s1[w + 1], x));
            }
            assert(side_has_id(s1, x));
        }
        if x == order.id {
            assert(fresh.orders[0].id == x);
            assert(level_has_id(s1[i], x));
            assert(side_has_id(s1, x));
        }
        if side_has_id(s1, x) {
            let w = choose|w: int| 0 <= w < s1.len() && level_has_id(#[trigger] s1[w], x);
            if w == i {
                let j = choose|j: int| 0 <= j < fresh.orders.len() && (#[trigger] fresh.orders[j]).id == x;
                assert(x == order.id);
            } else if w < i {
                assert(s1[w] == s0[w]);
                assert(side_has_id(s0, x));
            } else {
                assert(s1[w] == s0[w - 1]);
                assert(level_has_id(s0[w - 1], x));
                assert(side_has_id(s0, x));
            }
        }
    }

    assert forall|k2: u64, x: u64| found_at(s0, k2, x) implies found_at(s1, k2, x) by {
        let w = choose|w: int|
            0 <= w < s0.len() && (#[trigger] s0[w]).price == k2 && level_has_id(s0[w], x);
        if w < i {
            assert(s1[w].price == k2 && level_has_id(s1[w], x));
        } else {
            assert(s1[w + 1] == s0[w]);
            assert(s1[w + 1].price == k2 && level_has_id(s1[w + 1], x));
        }
    }

    assert(fresh.orders[0].id == order.id);
    assert(level_has_id(s1[i], order.id));
    assert(found_at(s1, key, order.id));

    assert forall|i2: int, j2: int|
        0 <= i2 < s1.len() && 0 <= j2 < s1[i2].orders.len() implies ((#[trigger] s1[i2].orders[j2])
        == order && s1[i2].price == key) || stored_at(s0, s1[i2].price, s1[i2].orders[j2]) by {
        if i2 < i {
            assert(s1[i2] == s0[i2]);
            assert(stored_at(s0, s1[i2].price, s1[i2].orders[j2]));
        } else if i2 == i {
            assert(s1[i2].orders[j2] == order);
        } else {
            assert(s1[i2] == s0[i2 - 1]);
            assert(stored_at(s0, s1[i2].price, s1[i2].orders[j2]));
        }
    }
}

/// How a side looks after the order with `id` was taken out of it:
/// the `cancel_on_side` equation together with everything the book needs
/// to re-establish its invariant.
pub open spec fn unfiled(
    s0: Seq<LevelModel>,
    s1: Seq<LevelModel>,
    id: u64,
    side: Side,
    dormant: bool,
) -> bool {
    &&& s1 == cancel_on_side(s0, id)
    &&& side_wf(s1, side, dormant)
    &&& forall|x: u64| side_has_id(s1, x) == (side_has_id(s0, x) && x != id)
    &&& forall|k2: u64, x: u64| x != id && found_at(s0, k2, x) ==> found_at(s1, k2, x)
    &&& forall|i: int, j: int|
        0 <= i < s1.len() && 0 <= j < s1[i].orders.len() ==> stored_at(
            s0,
            s1[i].price,
            #[trigger] s1[i].orders[j],
        ) && s1[i].orders[j].id != id
}

/// A side without the id is unchanged by cancelling it.
pub proof fn lemma_cancel_absent(s: Seq<LevelModel>, id: u64)
    requires
        !side_has_id(s, id),
    ensures
        cancel_on_side(s, id) == s,
    decreases s.len(),
{
    if s.len() == 0 {
    } else {
        assert(!level_has_id(s[0], id));
        assert(!side_has_id(s.skip(1), id)) by {
            if side_has_id(s.skip(1), id) {
                let w = choose|w: int|
                    0 <= w < s.skip(1).len() && level_has_id(#[trigger] s.skip(1)[w], id);
                assert(s.skip(1)[w] == s[w + 1]);
                assert(side_has_id(s, id));
            }
        }
        lemma_cancel_absent(s.skip(1), id);
        assert(cancel_on_side(s, id) =~= s);
    }
}

/// Taking out the first order with `id` equals removing its position.
proof fn lemma_remove_order_at(os: Seq<Order>, id: u64, j: int)
    requires
        0 <= j < os.len(),
        os[j].id == id,
        forall|k: int| 0 <= k < j ==> (#[trigger] os[k]).id != id,
    ensures
        remove_order(os, id) == os.remove(j),
    decreases j,
{
    if j == 0 {
        assert(remove_order(os, id) == os.skip(1));
        assert(os.skip(1) =~= os.remove(0));
    } else {
        let tail = os.skip(1);
        assert(os[0].id != id);
        assert forall|k: int| 0 <= k < j - 1 implies (#[trigger] tail[k]).id != id by {
            assert(tail[k] == os[k + 1]);
        }
        assert(tail[j - 1] == os[j]);
        lemma_remove_order_at(tail, id, j - 1);
        assert(seq![os[0]] + tail.remove(j - 1) =~= os.remove(j));
    }
}

/// Pins `cancel_on_side` down positionally and carries the facts the book
/// needs: `li` is the only level storing `id`, and `j` the first position
/// of `id` inside it.
pub(crate) proof fn lemma_unfiled(
    s0: Seq<LevelModel>,
    id: u64,
    side: Side,
    dormant: bool,
    li: int,
    j: int,
)
    requires
        side_wf(s0, side, dormant),
        0 <= li < s0.len(),
        0 <= j < s0[li].orders.len(),
        s0[li].orders[j].id == id,
        forall|k: int| 0 <= k < j ==> (#[trigger] s0[li].orders[k]).id != id,
        forall|i: int| 0 <= i < s0.len() && level_has_id(#[trigger] s0[i], id) ==> i == li,
    ensures
        unfiled(
            s0,
            if s0[li].orders.len() == 1 {
                s0.remove(li)
            } else {
                s0.update(li, LevelModel { price: s0[li].price, orders: s0[li].orders.remove(j) })
            },
            id,
            side,
            dormant,
        ),
    decreases li,
{
    let s1 = if s0[li].orders.len() == 1 {
        s0.remove(li)
    } else {
        s0.update(li, LevelModel { price: s0[li].price, orders: s0[li].orders.remove(j) })
    };
    lemma_remove_order_at(s0[li].orders, id, j);
    s0[li].orders.remove_ensures(j);

    // The positional form equals `cancel_on_side`.
    assert(s1 == cancel_on_side(s0, id)) by {
        lemma_cancel_positional(s0, id, side, dormant, li, j);
    }

    // Only position (li, j) carried the id.
    assert forall|i2: int, j2: int|
        0 <= i2 < s0.len() && 0 <= j2 < s0[i2].orders.len() && (#[trigger] s0[i2].orders[j2]).id
        == id implies i2 == li && j2 == j by {
        assert(level_has_id(s0[i2], id));
        assert(i2 == li);
        if j2 != j {
            assert(level_ids_distinct(s0[li]));
            assert(s0[li].orders[j2].id != s0[li].orders[j].id);
        }
    }

    if s0[li].orders.len() == 1 {
        assert(j == 0);
        // Well-formedness of the shrunk side.
        assert(side_wf(s1, side, dormant)) by {
            assert forall|x: int, y: int| 0 <= x < y < s1.len() implies price_better(
                (#[trigger] s1[x]).price,
                (#[trigger] s1[y]).price,
                descending_of(side, dormant),
            ) by {
                let x0: int = if x < li { x } else { x + 1 };
                let y0: int = if y < li { y } else { y + 1 };
                assert(s1[x] == s0[x0] && s1[y] == s0[y0]);
                assert(price_better(s0[x0].price, s0[y0].price, descending_of(side, dormant)));
            }
            assert forall|w: int| 0 <= w < s1.len() implies level_wf(#[trigger] s1[w], side, dormant)
                && level_ids_distinct(s1[w]) by {
                let w0: int = if w < li { w } else { w + 1 };
                assert(s1[w] == s0[w0]);
            }
        }
        assert forall|x: u64| side_has_id(s1, x) == (side_has_id(s0, x) && x != id) by {
            if side_has_id(s1, x) {
                let w = choose|w: int| 0 <= w < s1.len() && level_has_id(#[trigger] s1[w], x);
                let w0: int = if w < li { w } else { w + 1 };
                assert(s1[w] == s0[w0]);
                assert(side_has_id(s0, x));
                if x == id {
                    assert(w0 == li);
                }
            }
            if side_has_id(s0, x) && x != id {
                let w = choose|w: int| 0 <= w < s0.len() && level_has_id(#[trigger] s0[w], x);
                if w == li {
                    let j2 = choose|j2: int|
                        0 <= j2 < s0[li].orders.len() && (#[trigger] s0[li].orders[j2]).id == x;
                    assert(j2 == 0 && x == id);
                } else {
                    let w1: int = if w < li { w } else { w - 1 };
                    assert(s1[w1] == s0[w]);
                    assert(side_has_id(s1, x));
                }
            }
        }
        assert forall|k2: u64, x: u64| x != id && found_at(s0, k2, x) implies found_at(
            s1,
            k2,
            x,
        ) by {
            let w = choose|w: int|
                0 <= w < s0.len() && (#[trigger] s0[w]).price == k2 && level_has_id(s0[w], x);
            if w == li {
                let j2 = choose|j2: int|
                    0 <= j2 < s0[li].orders.len() && (#[trigger] s0[li].orders[j2]).id == x;
                assert(j2 == 0 && x == id);
            } else {
                let w1: int = if w < li { w } else { w - 1 };
                assert(s1[w1] == s0[w]);
            }
        }
        assert forall|i2: int, j2: int|
            0 <= i2 < s1.len() && 0 <= j2 < s1[i2].orders.len() implies stored_at(
            s0,
            s1[i2].price,
            #[trigger] s1[i2].orders[j2],
        ) && s1[i2].orders[j2].id != id by {
            let w0: int = if i2 < li { i2 } else { i2 + 1 };
            assert(s1[i2] == s0[w0]);
            assert(stored_at(s0, s0[w0].price, s0[w0].orders[j2]));
        }
    } else {
        let lvl1 = LevelModel { price: s0[li].price, orders: s0[li].orders.remove(j) };
        let os1 = lvl1.orders;
        let os0 = s0[li].orders;
        assert(os1.len() == os0.len() - 1);
        assert forall|k: int| 0 <= k < os1.len() implies #[trigger] os1[k] == os0[if k < j {
            k
        } else {
            k + 1
        }] by {}
        assert(side_wf(s1, side, dormant)) by {
            assert forall|x: int, y: int| 0 <= x < y < s1.len() implies price_better(
                (#[trigger] s1[x]).price,
                (#[trigger] s1[y]).price,
                descending_of(side, dormant),
            ) by {
                assert(s1[x].price == s0[x].price && s1[y].price == s0[y].price);
            }
            assert forall|w: int| 0 <= w < s1.len() implies level_wf(#[trigger] s1[w], side, dormant)
                && level_ids_distinct(s1[w]) by {
                if w != li {
                    assert(s1[w] == s0[w]);
                } else {
                    assert(level_wf(s0[li], side, dormant));
                    assert(level_ids_distinct(s0[li]));
                    assert forall|k: int| 0 <= k < os1.len() implies order_fits(
                        #[trigger] os1[k],
                        side,
                        lvl1.price,
                        dormant,
                    ) by {
                        let k0: int = if k < j { k } else { k + 1 };
                        assert(os1[k] == os0[k0]);
                        assert(order_fits(os0[k0], side, s0[li].price, dormant));
                    }
                    assert forall|k1: int, k2: int| 0 <= k1 < k2 < os1.len() implies (
                    #[trigger] os1[k1]).id != (#[trigger] os1[k2]).id by {
                        let a: int = if k1 < j { k1 } else { k1 + 1 };
                        let b: int = if k2 < j { k2 } else { k2 + 1 };
                        assert(os1[k1] == os0[a] && os1[k2] == os0[b]);
                        assert(a < b);
                    }
                }
            }
        }
        assert forall|x: u64| side_has_id(s1, x) == (side_has_id(s0, x) && x != id) by {
            if side_has_id(s1, x) {
                let w = choose|w: int| 0 <= w < s1.len() && level_has_id(#[trigger] s1[w], x);
                let j2 = choose|j2: int|
                    0 <= j2 < s1[w].orders.len() && (#[trigger] s1[w].orders[j2]).id == x;
                if w == li {
                    let k0: int = if j2 < j { j2 } else { j2 + 1 };
                    assert(s1[w].orders[j2] == os0[k0]);
                    assert(level_has_id(s0[li], x));
                    assert(x != id);
                } else {
                    assert(s1[w] == s0[w]);
                    if x == id {
                        assert(level_has_id(s0[w], id));
                    }
                }
                assert(side_has_id(s0, x));
            }
            if side_has_id(s0, x) && x != id {
                let w = choose|w: int| 0 <= w < s0.len() && level_has_id(#[trigger] s0[w], x);
                if w == li {
                    let j2 = choose|j2: int|
                        0 <= j2 < s0[li].orders.len() && (#[trigger] s0[li].orders[j2]).id == x;
                    assert(j2 != j);
                    let k1: int = if j2 < j { j2 } else { j2 - 1 };
                    assert(os1[k1] == os0[j2]);
                    assert(level_has_id(s1[li], x));
                } else {
                    assert(s1[w] == s0[w]);
                    assert(level_has_id(s1[w], x));
                }
                assert(side_has_id(s1, x));
            }
        }
        assert forall|k2: u64, x: u64| x != id && found_at(s0, k2, x) implies found_at(
            s1,
            k2,
            x,
        ) by {
            let w = choose|w: int|
                0 <= w < s0.len() && (#[trigger] s0[w]).price == k2 && level_has_id(s0[w], x);
            if w == li {
                let j2 = choose|j2: int|
                    0 <= j2 < s0[li].orders.len() && (#[trigger] s0[li].orders[j2]).id == x;
                assert(j2 != j);
                let k1: int = if j2 < j { j2 } else { j2 - 1 };
                assert(os1[k1] == os0[j2]);
                assert(s1[li].price == k2 && level_has_id(s1[li], x));
            } else {
                assert(s1[w] == s0[w]);
                assert(s1[w].price == k2 && level_has_id(s1[w], x));
            }
        }
        assert forall|i2: int, j2: int|
            0 <= i2 < s1.len() && 0 <= j2 < s1[i2].orders.len() implies stored_at(
            s0,
            s1[i2].price,
            #[trigger] s1[i2].orders[j2],
        ) && s1[i2].orders[j2].id != id by {
            if i2 == li {
                let k0: int = if j2 < j { j2 } else { j2 + 1 };
                assert(s1[i2].orders[j2] == os0[k0]);
                assert(stored_at(s0, s0[li].price, os0[k0]));
            } else {
                assert(s1[i2] == s0[i2]);
                assert(stored_at(s0, s0[i2].price, s0[i2].orders[j2]));
                if s1[i2].orders[j2].id == id {
                    assert(level_has_id(s0[i2], id));
                }
            }
        }
    }
}

/// The sorting direction of a container.
pub open spec fn descending_of(side: Side, dormant: bool) -> bool {
    side_descending(side) && !dormant
}

/// Takes the order with `id` out of the level keyed `key`, dropping the
/// level once it empties. The caller warrants that the id lives only at
/// that level.
#[verifier::loop_isolation(false)]
pub(crate) fn unfile_order(
    levels: &mut Vec<Level>,
    key: u64,
    id: u64,
    Ghost(side): Ghost<Side>,
    Ghost(dormant): Ghost<bool>,
)
    requires
        side_wf(side_view(old(levels)@), side, dormant),
        found_at(side_view(old(levels)@), key, id),
        forall|i: int|
            0 <= i < side_view(old(levels)@).len() && level_has_id(
                #[trigger] side_view(old(levels)@)[i],
                id,
            ) ==> side_view(old(levels)@)[i].price == key,
    ensures
        unfiled(side_view(old(levels)@), side_view(final(levels)@), id, side, dormant),
{
    let ghost s0 = side_view(levels@);
    let ghost wi = choose|w: int|
        0 <= w < s0.len() && (#[trigger] s0[w]).price == key && level_has_id(s0[w], id);

    let mut li: usize = 0;
    while li < levels.len() && levels[li].price != key
        invariant
            0 <= li <= levels.len(),
            forall|k: int| 0 <= k < li ==> (#[trigger] s0[k]).price != key,
        decreases levels.len() - li,
    {
        assert(s0[li as int] == levels@[li as int]@);
        li += 1;
    }
    assert(li < levels.len() && s0[li as int].price == key) by {
        if li >= levels.len() {
            assert(s0[wi].price != key);
        } else {
            assert(s0[li as int] == levels@[li as int]@);
        }
    }
    // Every level with the id sits at `key`, and prices are unique, so the
    // level found is the one holding the id.
    assert(li as int == wi) by {
        if li as int != wi {
            let a: int = if (li as int) < wi {
                li as int
            } else {
                wi
            };
            let b: int = if (li as int) < wi {
                wi
            } else {
                li as int
            };
            assert(price_better(s0[a].price, s0[b].price, descending_of(side, dormant)));
        }
    }
    assert(level_has_id(s0[li as int], id));
    let ghost lj = choose|j: int|
        0 <= j < s0[li as int].orders.len() && (#[trigger] s0[li as int].orders[j]).id == id;

    let lvl = &mut levels[li];
    assert(lvl@ == s0[li as int]);
    let mut j: usize = 0;
    while j < lvl.orders.len() && lvl.orders[j].id != id
        invariant
            0 <= j <= lvl.orders.len(),
            forall|k: int| 0 <= k < j ==> (#[trigger] s0[li as int].orders[k]).id != id,
        decreases lvl.orders.len() - j,
    {
        assert(s0[li as int].orders[j as int] == lvl.orders@[j as int]);
        j += 1;
    }
    assert(j < lvl.orders.len() && s0[li as int].orders[j as int].id == id) by {
        if j >= lvl.orders.len() {
            assert(s0[li as int].orders[lj].id != id);
        } else {
            assert(s0[li as int].orders[j as int] == lvl.orders@[j as int]);
        }
    }
    lvl.orders.remove(j);
    let now_empty = lvl.orders.len() == 0;
    if now_empty {
        levels.remove(li);
    }
    proof {
        assert forall|i: int| 0 <= i < s0.len() && level_has_id(#[trigger] s0[i], id) implies i
            == li as int by {
            if i != li as int {
                assert(s0[i].price == key);
                let a: int = if i < (li as int) {
                    i
                } else {
                    li as int
                };
                let b: int = if i < (li as int) {
                    li as int
                } else {
                    i
                };
                assert(price_better(s0[a].price, s0[b].price, descending_of(side, dormant)));
            }
        }
        lemma_unfiled(s0, id, side, dormant, li as int, j as int);
        let s1 = side_view(levels@);
        if now_empty {
            assert(s1 =~= s0.remove(li as int)) by {
                assert forall|k: int| 0 <= k < s1.len() implies s1[k] == s0.remove(li as int)[k] by {
                    assert(s1[k] == levels@[k]@);
                    if k < li as int {
                        assert(s0[k] == old(levels)@[k]@);
                    } else {
                        assert(s0[k + 1] == old(levels)@[k + 1]@);
                    }
                }
            }
        } else {
            assert(s1 =~= s0.update(
                li as int,
                LevelModel {
                    price: s0[li as int].price,
                    orders: s0[li as int].orders.remove(j as int),
                },
            )) by {
                assert forall|k: int| 0 <= k < s1.len() implies s1[k] == s0.update(
                    li as int,
                    LevelModel {
                        price: s0[li as int].price,
                        orders: s0[li as int].orders.remove(j as int),
                    },
                )[k] by {
                    assert(s1[k] == levels@[k]@);
                    if k != li as int {
                        assert(s0[k] == old(levels)@[k]@);
                    }
                }
            }
        }
    }
}

/// `cancel_on_side` removes exactly at the only level with the id.
proof fn lemma_cancel_positional(
    s0: Seq<LevelModel>,
    id: u64,
    side: Side,
    dormant: bool,
    li: int,
    j: int,
)
    requires
        side_wf(s0, side, dormant),
        0 <= li < s0.len(),
        0 <= j < s0[li].orders.len(),
        s0[li].orders[j].id == id,
        forall|k: int| 0 <= k < j ==> (#[trigger] s0[li].orders[k]).id != id,
        forall|i: int| 0 <= i < s0.len() && level_has_id(#[trigger] s0[i], id) ==> i == li,
    ensures
        cancel_on_side(s0, id) == if s0[li].orders.len() == 1 {
            s0.remove(li)
        } else {
            s0.update(li, LevelModel { price: s0[li].price, orders: s0[li].orders.remove(j) })
        },
    decreases li,
{
    lemma_remove_order_at(s0[li].orders, id, j);
    if li == 0 {
        assert(level_has_id(s0[0], id));
        if s0[0].orders.len() == 1 {
            assert(j == 0);
            assert(s0[0].orders.remove(0).len() == 0);
            assert(cancel_on_side(s0, id) == s0.skip(1));
            assert(s0.skip(1) =~= s0.remove(0));
        } else {
            assert(s0[0].orders.remove(j).len() == s0[0].orders.len() - 1 >= 1);
        }
    } else {
        assert(!level_has_id(s0[0], id)) by {
            if level_has_id(s0[0], id) {
                assert(0 == li);
            }
        }
        let tail = s0.skip(1);
        assert(side_wf(tail, side, dormant)) by {
            assert forall|x: int, y: int| 0 <= x < y < tail.len() implies price_better(
                (#[trigger] tail[x]).price,
                (#[trigger] tail[y]).price,
                descending_of(side, dormant),
            ) by {
                assert(tail[x] == s0[x + 1] && tail[y] == s0[y + 1]);
            }
            assert forall|w: int| 0 <= w < tail.len() implies level_wf(
                #[trigger] tail[w],
                side,
                dormant,
            ) && level_ids_distinct(tail[w]) by {
                assert(tail[w] == s0[w + 1]);
            }
        }
        assert(tail[li - 1] == s0[li]);
        assert forall|i: int| 0 <= i < tail.len() && level_has_id(#[trigger] tail[i], id) implies i
            == li - 1 by {
            assert(tail[i] == s0[i + 1]);
        }
        lemma_cancel_positional(tail, id, side, dormant, li - 1, j);
        if s0[li].orders.len() == 1 {
            assert(seq![s0[0]] + tail.remove(li - 1) =~= s0.remove(li));
        } else {
            assert(seq![s0[0]] + tail.update(
                li - 1,
                LevelModel { price: s0[li].price, orders: s0[li].orders.remove(j) },
            ) =~= s0.update(
                li,
                LevelModel { price: s0[li].price, orders: s0[li].orders.remove(j) },
            ));
        }
    }
}

/// Appending a level adds its orders to the count.
pub proof fn lemma_total_orders_push(s: Seq<LevelModel>, l: LevelModel)
    ensures
        total_orders(s.push(l)) == total_orders(s) + l.orders.len(),
    decreases s.len(),
{
    if s.len() == 0 {
        assert(s.push(l)[0] == l);
        assert(s.push(l).skip(1) =~= Seq::<LevelModel>::empty());
        assert(total_orders(s.push(l)) == l.orders.len() + total_orders(
            Seq::<LevelModel>::empty(),
        ));
    } else {
        assert(s.push(l)[0] == s[0]);
        assert(s.push(l).skip(1) =~= s.skip(1).push(l));
        lemma_total_orders_push(s.skip(1), l);
        assert(total_orders(s.push(l)) == s[0].orders.len() + total_orders(s.skip(1).push(l)));
        assert(total_orders(s) == s[0].orders.len() + total_orders(s.skip(1)));
    }
}

/// A side's count splits at any position.
pub proof fn lemma_total_orders_split(s: Seq<LevelModel>, i: int)
    requires
        0 <= i <= s.len(),
    ensures
        total_orders(s) == total_orders(s.take(i)) + total_orders(s.skip(i)),
    decreases i,
{
    if i == 0 {
        assert(s.take(0) =~= Seq::<LevelModel>::empty());
        assert(s.skip(0) =~= s);
    } else {
        assert(total_orders(s) == s[0].orders.len() + total_orders(s.skip(1)));
        lemma_total_orders_split(s.skip(1), i - 1);
        assert(s.skip(1).take(i - 1) =~= s.take(i).skip(1));
        assert(s.skip(1).skip(i - 1) =~= s.skip(i));
        assert(s.take(i)[0] == s[0]);
        assert(total_orders(s.take(i)) == s[0].orders.len() + total_orders(s.take(i).skip(1)));
    }
}

/// Counts the orders stored on a side; reports overflow instead of a
/// wrapped count when there are more than `u64::MAX` of them.
#[verifier::loop_isolation(false)]
pub(crate) fn count_side_orders(levels: &Vec<Level>) -> (r: Option<u64>)
    ensures
        match r {
            Some(n) => n as int == total_orders(side_view(levels@)),
            None => total_orders(side_view(levels@)) > u64::MAX,
        },
{
    let ghost s = side_view(levels@);
    let mut n: u64 = 0;
    let mut i: usize = 0;
    proof {
        assert(s.take(0) =~= Seq::<LevelModel>::empty());
    }
    while i < levels.len()
        invariant
            0 <= i <= levels.len(),
            n as int == total_orders(s.take(i as int)),
        decreases levels.len() - i,
    {
        proof {
            assert(s[i as int] == levels@[i as int]@);
            assert(s.take(i as int + 1) =~= s.take(i as int).push(s[i as int]));
            lemma_total_orders_push(s.take(i as int), s[i as int]);
        }
        let len_i = levels[i].orders.len();
        n = match n.checked_add(len_i as u64) {
            Some(v) => v,
            None => {
                proof {
                    lemma_total_orders_split(s, i as int + 1);
                }
                return None;
            },
        };
        i += 1;
    }
    proof {
        assert(s.take(s.len() as int) =~= s);
    }
    Some(n)
}

/// The level at `i` with its front (oldest) order taken out; the level is
/// dropped once it empties.
pub open spec fn pop_at(s: Seq<LevelModel>, i: int) -> Seq<LevelModel> {
    if s[i].orders.len() == 1 {
        s.remove(i)
    } else {
        s.update(i, LevelModel { price: s[i].price, orders: s[i].orders.skip(1) })
    }
}

/// The first level whose key is at or above `p`, on a side sorted in
/// ascending key order.
pub open spec fn first_ge(s: Seq<LevelModel>, p: u64) -> Option<int>
    decreases s.len(),
{
    if s.len() == 0 {
        None
    } else if s[0].price >= p {
        Some(0int)
    } else {
        match first_ge(s.skip(1), p) {
            None => None,
            Some(i) => Some(i + 1),
        }
    }
}

/// What `first_ge` returns: the first position at or above `p`, in range,
/// or nothing when every key is below `p`.
pub proof fn lemma_first_ge(s: Seq<LevelModel>, p: u64)
    ensures
        match first_ge(s, p) {
            None => forall|k: int| 0 <= k < s.len() ==> (#[trigger] s[k]).price < p,
            Some(i) => 0 <= i < s.len() && s[i].price >= p && forall|k: int|
                0 <= k < i ==> (#[trigger] s[k]).price < p,
        },
    decreases s.len(),
{
    if s.len() == 0 {
    } else if s[0].price >= p {
    } else {
        lemma_first_ge(s.skip(1), p);
        match first_ge(s.skip(1), p) {
            None => {
                assert forall|k: int| 0 <= k < s.len() implies (#[trigger] s[k]).price < p by {
                    if k > 0 {
                        assert(s.skip(1)[k - 1] == s[k]);
                    }
                }
            },
            Some(i) => {
                assert(s.skip(1)[i] == s[i + 1]);
                assert forall|k: int| 0 <= k < i + 1 implies (#[trigger] s[k]).price < p by {
                    if k > 0 {
                        assert(s.skip(1)[k - 1] == s[k]);
                    }
                }
            },
        }
    }
}

/// Removing a whole level takes its orders out of the count.
pub proof fn lemma_total_orders_remove_at(s: Seq<LevelModel>, i: int)
    requires
        0 <= i < s.len(),
    ensures
        total_orders(s.remove(i)) == total_orders(s) - s[i].orders.len(),
    decreases i,
{
    s.remove_ensures(i);
    if i == 0 {
        assert(s.remove(0) =~= s.skip(1));
    } else {
        lemma_total_orders_remove_at(s.skip(1), i - 1);
        assert(s.remove(i).skip(1) =~= s.skip(1).remove(i - 1));
        assert(s.skip(1)[i - 1] == s[i]);
        assert(total_orders(s.remove(i)) == s.remove(i)[0].orders.len() + total_orders(
            s.remove(i).skip(1),
        ));
        assert(s.remove(i)[0] == s[0]);
        assert(total_orders(s) == s[0].orders.len() + total_orders(s.skip(1)));
    }
}

/// Replacing one level adjusts the count by the difference.
pub proof fn lemma_total_orders_update_at(s: Seq<LevelModel>, i: int, l: LevelModel)
    requires
        0 <= i < s.len(),
    ensures
        total_orders(s.update(i, l)) == total_orders(s) - s[i].orders.len() + l.orders.len(),
    decreases i,
{
    if i == 0 {
        assert(s.update(0, l).skip(1) =~= s.skip(1));
        assert(total_orders(s.update(0, l)) == l.orders.len() + total_orders(
            s.update(0, l).skip(1),
        ));
        assert(total_orders(s) == s[0].orders.len() + total_orders(s.skip(1)));
    } else {
        lemma_total_orders_update_at(s.skip(1), i - 1, l);
        assert(s.update(i, l).skip(1) =~= s.skip(1).update(i - 1, l));
        assert(s.skip(1)[i - 1] == s[i]);
        assert(s.update(i, l)[0] == s[0]);
        assert(total_orders(s.update(i, l)) == s[0].orders.len() + total_orders(
            s.update(i, l).skip(1),
        ));
        assert(total_orders(s) == s[0].orders.len() + total_orders(s.skip(1)));
    }
}

/// Popping one order shrinks the count by one.
pub proof fn lemma_total_pop_at(s: Seq<LevelModel>, i: int)
    requires
        0 <= i < s.len(),
        s[i].orders.len() >= 1,
    ensures
        total_orders(pop_at(s, i)) == total_orders(s) - 1,
{
    if s[i].orders.len() == 1 {
        lemma_total_orders_remove_at(s, i);
    } else {
        lemma_total_orders_update_at(
            s,
            i,
            LevelModel { price: s[i].price, orders: s[i].orders.skip(1) },
        );
    }
}

/// Takes the front (oldest) order out of the level at `li`, dropping the
/// level once it empties.
pub(crate) fn pop_front_level(levels: &mut Vec<Level>, li: usize) -> (o: Order)
    requires
        li < old(levels).len(),
        side_view(old(levels)@)[li as int].orders.len() > 0,
    ensures
        o == side_view(old(levels)@)[li as int].orders[0],
        side_view(final(levels)@) == pop_at(side_view(old(levels)@), li as int),
{
    let ghost s0 = side_view(levels@);
    let lvl = &mut levels[li];
    assert(lvl@ == s0[li as int]);
    let o = lvl.orders.remove(0);
    let now_empty = lvl.orders.len() == 0;
    if now_empty {
        levels.remove(li);
    }
    proof {
        let s1 = side_view(levels@);
        if now_empty {
            assert(s1 =~= s0.remove(li as int)) by {
                assert forall|k: int| 0 <= k < s1.len() implies s1[k] == s0.remove(li as int)[k] by {
                    s0.remove_ensures(li as int);
                    assert(s1[k] == levels@[k]@);
                    if k < li as int {
                        assert(s0[k] == old(levels)@[k]@);
                    } else {
                        assert(s0[k + 1] == old(levels)@[k + 1]@);
                    }
                }
            }
        } else {
            let l2 = LevelModel {
                price: s0[li as int].price,
                orders: s0[li as int].orders.skip(1),
            };
            assert(s0[li as int].orders.remove(0) =~= s0[li as int].orders.skip(1));
            assert(s1 =~= s0.update(li as int, l2)) by {
                assert forall|k: int| 0 <= k < s1.len() implies s1[k] == s0.update(
                    li as int,
                    l2,
                )[k] by {
                    assert(s1[k] == levels@[k]@);
                    if k != li as int {
                        assert(s0[k] == old(levels)@[k]@);
                    }
                }
            }
        }
    }
    o
}

/// Filing one order grows the side's order count by one.
pub proof fn lemma_total_add_to_side(s: Seq<LevelModel>, key: u64, o: Order, descending: bool)
    ensures
        total_orders(add_to_side(s, key, o, descending)) == total_orders(s) + 1,
    decreases s.len(),
{
    let s2 = add_to_side(s, key, o, descending);
    if s.len() == 0 {
        assert(s2.skip(1) =~= Seq::<LevelModel>::empty());
        assert(total_orders(s2) == 1 + total_orders(s2.skip(1)));
    } else if s[0].price == key {
        assert(s2.skip(1) =~= s.skip(1));
        assert(total_orders(s2) == s2[0].orders.len() + total_orders(s2.skip(1)));
        assert(total_orders(s) == s[0].orders.len() + total_orders(s.skip(1)));
    } else if price_better(key, s[0].price, descending) {
        assert(s2.skip(1) =~= s);
        assert(total_orders(s2) == s2[0].orders.len() + total_orders(s2.skip(1)));
    } else {
        lemma_total_add_to_side(s.skip(1), key, o, descending);
        assert(s2.skip(1) =~= add_to_side(s.skip(1), key, o, descending));
        assert(s2[0] == s[0]);
        assert(total_orders(s2) == s2[0].orders.len() + total_orders(s2.skip(1)));
        assert(total_orders(s) == s[0].orders.len() + total_orders(s.skip(1)));
    }
}

/// Appending an order adds its amount to the sum.
pub proof fn lemma_qty_sum_push(os: Seq<Order>, o: Order)
    ensures
        qty_sum(os.push(o)) == qty_sum(os) + o.amount,
    decreases os.len(),
{
    if os.len() == 0 {
        assert(os.push(o)[0] == o);
        assert(os.push(o).skip(1) =~= Seq::<Order>::empty());
        assert(qty_sum(os.push(o)) == o.amount + qty_sum(Seq::<Order>::empty()));
    } else {
        assert(os.push(o)[0] == os[0]);
        assert(os.push(o).skip(1) =~= os.skip(1).push(o));
        lemma_qty_sum_push(os.skip(1), o);
        assert(qty_sum(os.push(o)) == os[0].amount + qty_sum(os.skip(1).push(o)));
    }
}

/// The sum of amounts is non-negative and at most one `u64::MAX` per order.
pub proof fn lemma_qty_sum_bounds(os: Seq<Order>)
    ensures
        0 <= qty_sum(os) <= os.len() * u64::MAX,
    decreases os.len(),
{
    if os.len() == 0 {
    } else {
        lemma_qty_sum_bounds(os.skip(1));
        assert((os.len() - 1) * u64::MAX + u64::MAX == os.len() * u64::MAX) by (nonlinear_arith);
    }
}

/// Pins `add_to_side` down positionally: when `i` is the sorted position
/// of `key`, adding is an update of the level at `i` (same key) or an
/// insertion of a fresh level at `i`.
pub proof fn lemma_add_to_side_at(s: Seq<LevelModel>, key: u64, o: Order, descending: bool, i: int)
    requires
        prices_sorted(s, descending),
        0 <= i <= s.len(),
        forall|k: int| 0 <= k < i ==> price_better((#[trigger] s[k]).price, key, descending),
        i < s.len() ==> !price_better(s[i].price, key, descending),
    ensures
        add_to_side(s, key, o, descending) == if i < s.len() && s[i].price == key {
            s.update(i, LevelModel { price: key, orders: s[i].orders.push(o) })
        } else {
            s.insert(i, LevelModel { price: key, orders: seq![o] })
        },
    decreases s.len(),
{
    let fresh = LevelModel { price: key, orders: seq![o] };
    if s.len() == 0 {
        assert(add_to_side(s, key, o, descending) =~= s.insert(0, fresh));
    } else if i == 0 {
        if s[0].price == key {
        } else {
            assert(price_better(key, s[0].price, descending));
            assert(add_to_side(s, key, o, descending) =~= s.insert(0, fresh));
        }
    } else {
        let tail = s.skip(1);
        assert(price_better(s[0].price, key, descending));
        assert(prices_sorted(tail, descending)) by {
            assert forall|x: int, y: int| 0 <= x < y < tail.len() implies price_better(
                (#[trigger] tail[x]).price,
                (#[trigger] tail[y]).price,
                descending,
            ) by {
                assert(tail[x] == s[x + 1]);
                assert(tail[y] == s[y + 1]);
            }
        }
        assert forall|k: int| 0 <= k < i - 1 implies price_better(
            (#[trigger] tail[k]).price,
            key,
            descending,
        ) by {
            assert(tail[k] == s[k + 1]);
        }
        assert(i - 1 < tail.len() ==> !price_better(tail[i - 1].price, key, descending)) by {
            if i - 1 < tail.len() {
                assert(tail[i - 1] == s[i]);
            }
        }
        lemma_add_to_side_at(tail, key, o, descending, i - 1);
        if i < s.len() && s[i].price == key {
            assert(tail[i - 1] == s[i]);
            assert(seq![s[0]] + tail.update(
                i - 1,
                LevelModel { price: key, orders: s[i].orders.push(o) },
            ) =~= s.update(i, LevelModel { price: key, orders: s[i].orders.push(o) }));
        } else {
            assert(seq![s[0]] + tail.insert(i - 1, fresh) =~= s.insert(i, fresh));
        }
    }
}

} // verus!
