//! The engine router: one order book per traded symbol, command dispatch,
//! and event assembly. Commands are applied one at a time, to completion —
//! the router holds its books exclusively and has no internal concurrency.

use vstd::prelude::*;

use crate::models::{Command, EngineEvent, Order};
use crate::orderbook::{cancel_book_model, empty_book, spec_process, OrderBook};

verus! {

/// The first book filed under this symbol, if any.
pub open spec fn book_index(s: Seq<(String, OrderBook)>, sym: Seq<char>) -> Option<int>
    decreases s.len(),
{
    if s.len() == 0 {
        None
    } else if s[0].0@ == sym {
        Some(0int)
    } else {
        match book_index(s.skip(1), sym) {
            None => None,
            Some(i) => Some(i + 1),
        }
    }
}

/// The first book storing an order with this id, if any.
pub open spec fn holder_index(s: Seq<(String, OrderBook)>, id: u64) -> Option<int>
    decreases s.len(),
{
    if s.len() == 0 {
        None
    } else if s[0].1@.has_id(id) {
        Some(0int)
    } else {
        match holder_index(s.skip(1), id) {
            None => None,
            Some(i) => Some(i + 1),
        }
    }
}

/// Pins `book_index` down positionally: `i` is the scan position where the
/// first match sits, or the length when there is none.
proof fn lemma_book_index_at(s: Seq<(String, OrderBook)>, sym: Seq<char>, i: int)
    requires
        0 <= i <= s.len(),
        forall|k: int| 0 <= k < i ==> (#[trigger] s[k]).0@ != sym,
        i < s.len() ==> s[i].0@ == sym,
    ensures
        book_index(s, sym) == if i < s.len() {
            Some(i)
        } else {
            Option::<int>::None
        },
    decreases i,
{
    if s.len() == 0 {
    } else if i == 0 {
    } else {
        let tail = s.skip(1);
        assert forall|k: int| 0 <= k < i - 1 implies (#[trigger] tail[k]).0@ != sym by {
            assert(tail[k] == s[k + 1]);
        }
        assert(i - 1 < tail.len() ==> tail[i - 1] == s[i]);
        lemma_book_index_at(tail, sym, i - 1);
    }
}

/// Pins `holder_index` down positionally, the same way.
proof fn lemma_holder_index_at(s: Seq<(String, OrderBook)>, id: u64, i: int)
    requires
        0 <= i <= s.len(),
        forall|k: int| 0 <= k < i ==> !(#[trigger] s[k]).1@.has_id(id),
        i < s.len() ==> s[i].1@.has_id(id),
    ensures
        holder_index(s, id) == if i < s.len() {
            Some(i)
        } else {
            Option::<int>::None
        },
    decreases i,
{
    if s.len() == 0 {
    } else if i == 0 {
    } else {
        let tail = s.skip(1);
        assert forall|k: int| 0 <= k < i - 1 implies !(#[trigger] tail[k]).1@.has_id(id) by {
            assert(tail[k] == s[k + 1]);
        }
        assert(i - 1 < tail.len() ==> tail[i - 1] == s[i]);
        lemma_holder_index_at(tail, id, i - 1);
    }
}

/// What a Place command leaves behind: the symbol's book — found, or
/// freshly appended — has processed the order, every other book is
/// untouched, and the events are one OrderPlaced followed by one
/// TradeExecuted per trade, in trade order.
pub open spec fn place_post(
    b0: Seq<(String, OrderBook)>,
    b1: Seq<(String, OrderBook)>,
    o: Order,
    events: Seq<EngineEvent>,
) -> bool {
    let at = match book_index(b0, o.symbol@) {
        Some(i) => i,
        None => b0.len() as int,
    };
    let m0 = match book_index(b0, o.symbol@) {
        Some(i) => b0[i].1@,
        None => empty_book(),
    };
    let r = spec_process(m0, o);
    &&& b1.len() == if book_index(b0, o.symbol@) is Some {
        b0.len() as int
    } else {
        b0.len() + 1int
    }
    &&& forall|k: int| 0 <= k < b1.len() && k != at ==> b1[k] == b0[k]
    &&& b1[at].0@ == o.symbol@
    &&& b1[at].1@ == r.1
    &&& b1[at].1.wf()
    &&& events.len() == 1 + r.0.len()
    &&& events[0] == (EngineEvent::OrderPlaced {
        order_id: o.id,
        user_id: o.user_id,
        symbol: o.symbol,
        price: o.price,
        amount: o.amount,
        side: o.side,
    })
    &&& forall|k: int|
        0 <= k < r.0.len() ==> events[k + 1] == (EngineEvent::TradeExecuted { trade: r.0[k] })
}

/// What a Cancel command leaves behind: exactly one OrderCancelled event,
/// successful iff some book stored the id; the first such book has the
/// order removed, and every other book is untouched.
pub open spec fn cancel_post(
    b0: Seq<(String, OrderBook)>,
    b1: Seq<(String, OrderBook)>,
    id: u64,
    events: Seq<EngineEvent>,
) -> bool {
    &&& events.len() == 1
    &&& events[0] == (EngineEvent::OrderCancelled {
        order_id: id,
        success: holder_index(b0, id) is Some,
    })
    &&& match holder_index(b0, id) {
        None => b1 == b0,
        Some(i) => {
            &&& b1.len() == b0.len()
            &&& forall|k: int| 0 <= k < b1.len() && k != i ==> b1[k] == b0[k]
            &&& b1[i].0 == b0[i].0
            &&& b1[i].1@ == cancel_book_model(b0[i].1@, id)
            &&& b1[i].1.wf()
            &&& !b1[i].1@.has_id(id)
        },
    }
}

/// The engine router: one order book per traded symbol.
pub struct MatchingEngine {
    books: Vec<(String, OrderBook)>,
}

impl MatchingEngine {
    /// The symbol-to-book table, in creation order.
    pub closed spec fn books_view(&self) -> Seq<(String, OrderBook)> {
        self.books@
    }

    /// Every book is well formed, and no two books share a symbol.
    pub open spec fn wf(&self) -> bool {
        &&& forall|i: int|
            0 <= i < self.books_view().len() ==> (#[trigger] self.books_view()[i]).1.wf()
        &&& forall|i: int, j: int|
            0 <= i < j < self.books_view().len() ==> (#[trigger] self.books_view()[i]).0@ != (
            #[trigger] self.books_view()[j]).0@
    }

    /// Whether a Place command for this order can be accepted: the order's
    /// id must be fresh in its symbol's book, and the book must have
    /// trade-id room left.
    pub open spec fn can_place(&self, o: Order) -> bool {
        match book_index(self.books_view(), o.symbol@) {
            None => true,
            Some(i) => !self.books_view()[i].1@.has_id(o.id)
                && self.books_view()[i].1@.id_budget_ok(),
        }
    }

    /// An engine with no books yet; books appear as symbols are traded.
    pub fn new() -> (r: MatchingEngine)
        ensures
            r.wf(),
            r.books_view() == Seq::<(String, OrderBook)>::empty(),
    {
        let r = MatchingEngine { books: Vec::new() };
        proof {
            assert(r.books_view() =~= Seq::<(String, OrderBook)>::empty());
        }
        r
    }

    /// The index of the book for this symbol, scanning in creation order.
    #[verifier::loop_isolation(false)]
    fn find_book(&self, symbol: &String) -> (r: Option<usize>)
        ensures
            r matches Some(i) ==> i < self.books_view().len() && book_index(
                self.books_view(),
                symbol@,
            ) == Some(i as int) && self.books_view()[i as int].0@ == symbol@,
            r is None ==> book_index(self.books_view(), symbol@) is None && forall|k: int|
                0 <= k < self.books_view().len() ==> (#[trigger] self.books_view()[k]).0@
                    != symbol@,
    {
        let mut i: usize = 0;
        while i < self.books.len() && !(self.books[i].0 == *symbol)
            invariant
                0 <= i <= self.books_view().len(),
                forall|k: int| 0 <= k < i ==> (#[trigger] self.books_view()[k]).0@ != symbol@,
            decreases self.books_view().len() - i,
        {
            i += 1;
        }
        proof {
            lemma_book_index_at(self.books_view(), symbol@, i as int);
        }
        if i < self.books.len() {
            Some(i)
        } else {
            None
        }
    }

    /// Dispatches one inbound command and returns the events it produced,
    /// in generation order.
    pub fn process_command(&mut self, cmd: Command) -> (events: Vec<EngineEvent>)
        requires
            old(self).wf(),
            cmd matches Command::Place(o) ==> o.amount > 0 && old(self).can_place(o),
        ensures
            final(self).wf(),
            cmd matches Command::Place(o) ==> place_post(
                old(self).books_view(),
                final(self).books_view(),
                o,
                events@,
            ),
            cmd matches Command::Cancel(id) ==> cancel_post(
                old(self).books_view(),
                final(self).books_view(),
                id,
                events@,
            ),
    {
        match cmd {
            Command::Place(order) => self.process_place(order),
            Command::Cancel(order_id) => self.process_cancel(order_id),
        }
    }

    /// Routes a Place to its symbol's book, lazily creating the book, and
    /// wraps the outcome into events.
    fn process_place(&mut self, order: Order) -> (events: Vec<EngineEvent>)
        requires
            old(self).wf(),
            order.amount > 0,
            old(self).can_place(order),
        ensures
            final(self).wf(),
            place_post(old(self).books_view(), final(self).books_view(), order, events@),
    {
        let ghost b0 = self.books_view();
        let ghost o0 = order;
        let oid = order.id;
        let ouser = order.user_id;
        let osym = order.symbol.clone();
        let oprice = order.price;
        let oamount = order.amount;
        let oside = order.side;
        let found = self.find_book(&order.symbol);
        let trades: Vec<crate::models::Trade> = match found {
            Some(i) => {
                proof {
                    assert(b0[i as int].1.wf());
                }
                let pair = &mut self.books[i];
                let t = pair.1.process_order(order);
                proof {
                    let b1 = self.books_view();
                    let at = i as int;
                    assert(b1.len() == b0.len());
                    assert(forall|k: int| 0 <= k < b1.len() && k != at ==> b1[k] == b0[k]);
                    assert(b1[at].0 == b0[at].0);
                    assert(b1[at].1.wf());
                    assert forall|x: int, y: int|
                        0 <= x < y < b1.len() implies (#[trigger] b1[x]).0@ != (
                    #[trigger] b1[y]).0@ by {
                        assert(b1[x].0 == b0[x].0 && b1[y].0 == b0[y].0);
                    }
                }
                t
            },
            None => {
                let mut book = OrderBook::new();
                let t = book.process_order(order);
                let key = osym.clone();
                let ghost kg = key;
                self.books.push((key, book));
                proof {
                    let b1 = self.books_view();
                    let at = b0.len() as int;
                    assert(b1.len() == b0.len() + 1);
                    assert(forall|k: int| 0 <= k < at ==> b1[k] == b0[k]);
                    assert(b1[at].0 == kg && kg@ == o0.symbol@);
                    assert(b1[at].1.wf());
                    assert forall|x: int, y: int|
                        0 <= x < y < b1.len() implies (#[trigger] b1[x]).0@ != (
                    #[trigger] b1[y]).0@ by {
                        if y == at {
                            assert(b1[x] == b0[x]);
                            assert(b0[x].0@ != o0.symbol@);
                        } else {
                            assert(b1[x] == b0[x] && b1[y] == b0[y]);
                        }
                    }
                }
                t
            },
        };
        let mut events: Vec<EngineEvent> = Vec::new();
        events.push(
            EngineEvent::OrderPlaced {
                order_id: oid,
                user_id: ouser,
                symbol: osym,
                price: oprice,
                amount: oamount,
                side: oside,
            },
        );
        let ghost r = spec_process(
            match book_index(b0, o0.symbol@) {
                Some(i) => b0[i].1@,
                None => empty_book(),
            },
            o0,
        );
        proof {
            assert(trades@ == r.0);
        }
        let mut k: usize = 0;
        while k < trades.len()
            invariant
                0 <= k <= trades@.len(),
                trades@ == r.0,
                events@.len() == 1 + k,
                events@[0] == (EngineEvent::OrderPlaced {
                    order_id: o0.id,
                    user_id: o0.user_id,
                    symbol: o0.symbol,
                    price: o0.price,
                    amount: o0.amount,
                    side: o0.side,
                }),
                forall|q: int|
                    0 <= q < k ==> events@[q + 1] == (EngineEvent::TradeExecuted {
                        trade: r.0[q],
                    }),
            decreases trades@.len() - k,
        {
            events.push(EngineEvent::TradeExecuted { trade: trades[k] });
            k += 1;
        }
        events
    }

    /// Routes a Cancel: the command carries no symbol, so the books are
    /// scanned in creation order until one reports success. Exactly one
    /// OrderCancelled event comes back either way.
    fn process_cancel(&mut self, order_id: u64) -> (events: Vec<EngineEvent>)
        requires
            old(self).wf(),
        ensures
            final(self).wf(),
            cancel_post(old(self).books_view(), final(self).books_view(), order_id, events@),
    {
        let ghost b0 = self.books_view();
        let mut success = false;
        let mut i: usize = 0;
        #[verifier::loop_isolation(true)]
        loop
            invariant_except_break
                !success,
                self.books_view() == b0,
            invariant
                0 <= i <= b0.len(),
                b0 == old(self).books_view(),
                old(self).wf(),
                forall|k: int| 0 <= k < i ==> !(#[trigger] b0[k]).1@.has_id(order_id),
            ensures
                success ==> {
                    &&& i < b0.len()
                    &&& b0[i as int].1@.has_id(order_id)
                    &&& self.books_view().len() == b0.len()
                    &&& forall|k: int|
                        0 <= k < b0.len() && k != i as int ==> self.books_view()[k] == b0[k]
                    &&& self.books_view()[i as int].0 == b0[i as int].0
                    &&& self.books_view()[i as int].1@ == cancel_book_model(
                        b0[i as int].1@,
                        order_id,
                    )
                    &&& self.books_view()[i as int].1.wf()
                    &&& !self.books_view()[i as int].1@.has_id(order_id)
                },
                !success ==> i == b0.len() && self.books_view() == b0,
            decreases b0.len() - i,
        {
            if i >= self.books.len() {
                break;
            }
            proof {
                assert(b0[i as int].1.wf());
            }
            let pair = &mut self.books[i];
            let hit = pair.1.cancel_order(order_id);
            if hit {
                success = true;
                break;
            }
            proof {
                let b1 = self.books_view();
                assert(b1.len() == b0.len());
                assert forall|k: int| 0 <= k < b0.len() implies b1[k] == b0[k] by {
                    if k == i as int {
                        assert(b1[k].0 == b0[k].0);
                        assert(b1[k].1 == b0[k].1);
                    }
                }
                assert(b1 =~= b0);
            }
            i += 1;
        }
        proof {
            if success {
                lemma_holder_index_at(b0, order_id, i as int);
                let b1 = self.books_view();
                assert forall|x: int, y: int|
                    0 <= x < y < b1.len() implies (#[trigger] b1[x]).0@ != (#[trigger] b1[y]).0@ by {
                    assert(b1[x].0 == b0[x].0 && b1[y].0 == b0[y].0);
                }
                assert forall|x: int|
                    0 <= x < b1.len() implies (#[trigger] b1[x]).1.wf() by {
                    if x != i as int {
                        assert(b1[x] == b0[x]);
                        assert(b0[x].1.wf());
                    }
                }
            } else {
                lemma_holder_index_at(b0, order_id, b0.len() as int);
            }
        }
        let mut events: Vec<EngineEvent> = Vec::new();
        events.push(EngineEvent::OrderCancelled { order_id, success });
        events
    }

    /// Whether a Place command for this order can be accepted; the
    /// executable twin of `can_place`, for callers outside verified code
    /// that must test the dispatch precondition.
    pub fn can_accept(&self, order: &Order) -> (r: bool)
        requires
            self.wf(),
        ensures
            r == self.can_place(*order),
    {
        match self.find_book(&order.symbol) {
            None => true,
            Some(i) => {
                proof {
                    assert((self.books_view()[i as int]).1.wf());
                }
                self.books[i].1.can_accept(order)
            },
        }
    }

    /// A read handle on the book for this symbol, if one exists; used by
    /// the snapshot collaborator.
    pub fn get_orderbook(&self, symbol: &str) -> (r: Option<&OrderBook>)
        requires
            self.wf(),
        ensures
            match book_index(self.books_view(), symbol@) {
                None => r is None,
                Some(i) => r matches Some(b) && *b == self.books_view()[i].1 && b.wf(),
            },
    {
        let key = symbol.to_owned();
        let found = self.find_book(&key);
        match found {
            Some(i) => {
                proof {
                    assert((self.books_view()[i as int]).1.wf());
                }
                Some(&self.books[i].1)
            },
            None => None,
        }
    }
}

} // verus!
