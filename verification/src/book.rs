//! The order book: both sides' level stores, the order-location index that
//! makes cancellation O(1), and the lazily refreshed best bid/ask caches.

use vstd::prelude::*;
use std::collections::HashMap;
use rand::Rng;
use crate::half_book::{remove_id, seq_has_id, HalfBook, Order};
use crate::{BookError, CancelResult, OrderId, OrderQty, Price, Side, NO_PRICE};

verus! {

broadcast use vstd::std_specs::hash::group_hash_axioms;

/// Relies on `rand::thread_rng` and `rand::Rng::gen`: draws a machine-random
/// `u64` to serve as a fresh order identifier; nothing is promised of the
/// drawn value.
#[verifier::external_body]
fn random_u64() -> u64 {
    rand::thread_rng().gen()
}

/// A limit order book for one instrument.
///
/// `best_bid` and `best_ask` are caches: they are refreshed only by
/// [`OrderBook::update_best_bid_ask`], never eagerly on mutation. Callers
/// must refresh after a batch of mutations before relying on them.
pub struct OrderBook {
    /// Bid side of the order book
    pub bids: HalfBook,

    /// Ask side of the order book
    pub asks: HalfBook,

    /// Cached best bid price; `NO_PRICE` when no bid rests (or stale)
    pub best_bid: Price,

    /// Cached best ask price; `NO_PRICE` when no ask rests (or stale)
    pub best_ask: Price,

    /// Maps a resting order's identifier to its side and level slot
    pub order_loc: HashMap<u64, (Side, usize)>,
}

impl OrderBook {
    /// The half book of `side`.
    pub open spec fn half(self, side: Side) -> HalfBook {
        match side {
            Side::Bid => self.bids,
            Side::Ask => self.asks,
        }
    }

    /// Whether an order with identifier `id` currently rests in the book.
    pub open spec fn rests(self, id: u64) -> bool {
        self.order_loc@.dom().contains(id)
    }

    /// Whether a level was ever allocated at `price` on `side`.
    pub open spec fn has_price(self, side: Side, price: Price) -> bool {
        self.half(side).spec_has_price(price)
    }

    /// The FIFO queue of orders resting at `price` on `side`, oldest first.
    pub open spec fn level_at(self, side: Side, price: Price) -> Seq<Order> {
        self.half(side).level_at(price)
    }

    /// The total quantity resting at `price` on `side`.
    pub open spec fn total_at(self, side: Side, price: Price) -> int {
        self.half(side).total_at(price)
    }

    /// Whether at least one order rests at `price` on `side`.
    pub open spec fn nonempty_at(self, side: Side, price: Price) -> bool {
        self.half(side).nonempty_at(price)
    }

    /// The location entry of `id` points into the arena and the level there
    /// really holds an order with identifier `id`.
    pub open spec fn loc_ok(self, id: u64) -> bool {
        let loc = self.order_loc@[id];
        &&& loc.1 < self.half(loc.0).levels@.len()
        &&& seq_has_id(self.half(loc.0).levels@[loc.1 as int]@, id)
    }

    /// The order at position `j` of the level in slot `s` on `side` is
    /// registered in the location index, at exactly that location.
    pub open spec fn entry_ok(self, side: Side, s: int, j: int) -> bool {
        let o = self.half(side).levels@[s]@[j];
        &&& self.order_loc@.dom().contains(o.id.0)
        &&& self.order_loc@[o.id.0].0 == side
        &&& self.order_loc@[o.id.0].1 as int == s
    }

    /// The book invariant: both halves are well formed, and the location
    /// index and the level queues list exactly the same orders — an
    /// identifier rests at most once, where its index entry says.
    pub open spec fn inv(self) -> bool {
        &&& self.bids.wf()
        &&& self.asks.wf()
        &&& forall|id: u64| #[trigger] self.order_loc@.dom().contains(id) ==> self.loc_ok(id)
        &&& forall|side: Side, s: int, j: int|
            #![trigger self.half(side).levels@[s]@[j]]
            0 <= s < self.half(side).levels@.len() && 0 <= j < self.half(side).levels@[s]@.len()
                ==> self.entry_ok(side, s, j)
    }

    /// `p` is the maximum price with a non-empty bid level, or `NO_PRICE`
    /// when every bid level is empty.
    pub open spec fn is_best_bid(self, p: Price) -> bool {
        if exists|q: Price| self.nonempty_at(Side::Bid, q) {
            self.nonempty_at(Side::Bid, p) && forall|q: Price|
                self.nonempty_at(Side::Bid, q) ==> q <= p
        } else {
            p == NO_PRICE
        }
    }

    /// `p` is the minimum price with a non-empty ask level, or `NO_PRICE`
    /// when every ask level is empty.
    pub open spec fn is_best_ask(self, p: Price) -> bool {
        if exists|q: Price| self.nonempty_at(Side::Ask, q) {
            self.nonempty_at(Side::Ask, p) && forall|q: Price|
                self.nonempty_at(Side::Ask, q) ==> q >= p
        } else {
            p == NO_PRICE
        }
    }

    /// An empty order book.
    pub fn new() -> (r: OrderBook)
        ensures
            r.inv(),
            r.best_bid == NO_PRICE,
            r.best_ask == NO_PRICE,
            forall|side: Side, p: Price| !r.has_price(side, p),
            forall|side: Side, p: Price| r.level_at(side, p) == Seq::<Order>::empty(),
            r.order_loc@ == Map::<u64, (Side, usize)>::empty(),
            forall|id: u64| !r.rests(id),
    {
        let r = OrderBook {
            best_bid: NO_PRICE,
            best_ask: NO_PRICE,
            bids: HalfBook::new(),
            asks: HalfBook::new(),
            order_loc: HashMap::new(),
        };
        proof {
            assert(forall|side: Side, p: Price| !r.has_price(side, p));
        }
        r
    }

    /// What [`OrderBook::add_with_id`] does when the identifier is fresh:
    /// the order joins the back of its level, nothing else moves, and the
    /// location index gains exactly that identifier.
    pub open spec fn added(pre: OrderBook, post: OrderBook, id: OrderId, side: Side, price: Price, qty: OrderQty) -> bool {
        &&& post.level_at(side, price) == pre.level_at(side, price).push(Order { id, qty })
        &&& forall|s2: Side, q: Price|
            !(s2 == side && q == price) ==> #[trigger] post.level_at(s2, q) == pre.level_at(s2, q)
        &&& forall|s2: Side, q: Price|
            #[trigger] post.has_price(s2, q) <==> (pre.has_price(s2, q) || (s2 == side && q
                == price))
        &&& post.order_loc@.dom() == pre.order_loc@.dom().insert(id.0)
        &&& post.best_bid == pre.best_bid
        &&& post.best_ask == pre.best_ask
    }

    /// Nothing observable about the book differs between `pre` and `post`.
    pub open spec fn unchanged(pre: OrderBook, post: OrderBook) -> bool {
        &&& post.bids == pre.bids
        &&& post.asks == pre.asks
        &&& post.best_bid == pre.best_bid
        &&& post.best_ask == pre.best_ask
        &&& post.order_loc@ == pre.order_loc@
    }

    /// Inserts a resting order under a caller-chosen identifier. The order
    /// is inserted iff `id` is not already resting; the result reports
    /// whether it was.
    pub fn add_with_id(&mut self, id: OrderId, side: Side, price: Price, qty: OrderQty) -> (r: bool)
        requires
            old(self).inv(),
            price != NO_PRICE,
            qty > 0,
        ensures
            final(self).inv(),
            r == !old(self).rests(id.0),
            !r ==> Self::unchanged(*old(self), *final(self)),
            r ==> Self::added(*old(self), *final(self), id, side, price, qty),
    {
        if self.order_loc.contains_key(&id.0) {
            return false;
        }
        let ghost pre = *self;
        proof {
            assert(!pre.rests(id.0));
            assert(!seq_has_id(pre.level_at(side, price), id.0)) by {
                if seq_has_id(pre.level_at(side, price), id.0) {
                    assert(pre.has_price(side, price));
                    let lvl = pre.level_at(side, price);
                    let j = choose|j: int| 0 <= j < lvl.len() && lvl[j].id.0 == id.0;
                    let s = pre.half(side).slot_of(price);
                    assert(pre.half(side).levels@[s]@[j].id.0 == id.0);
                    assert(pre.entry_ok(side, s, j));
                }
            }
        }
        let ord = Order { id, qty };
        let slot = match side {
            Side::Bid => self.bids.insert(price, ord),
            Side::Ask => self.asks.insert(price, ord),
        };
        self.order_loc.insert(id.0, (side, slot));
        proof {
            let post = *self;
            let oside = side.spec_opposite();
            assert(post.half(oside) == pre.half(oside));
            assert(post.order_loc@ == pre.order_loc@.insert(id.0, (side, slot)));
            assert(post.order_loc@.dom() =~= pre.order_loc@.dom().insert(id.0));
            assert(Self::added(pre, post, id, side, price, qty)) by {
                assert forall|s2: Side, q: Price| !(s2 == side && q == price) implies #[trigger] post.level_at(s2, q)
                    == pre.level_at(s2, q) by {
                    if s2 == side {
                        assert(post.half(s2).level_at(q) == pre.half(s2).level_at(q));
                    }
                }
                assert forall|s2: Side, q: Price| true implies (#[trigger] post.has_price(s2, q) <==> (
                pre.has_price(s2, q) || (s2 == side && q == price))) by {
                    if s2 == side && q != price {
                        assert(post.half(s2).spec_has_price(q) <==> pre.half(s2).spec_has_price(q));
                    }
                }
            }
            assert(post.inv()) by {
                let hb = post.half(side);
                let pb = pre.half(side);
                assert forall|id2: u64| #[trigger] post.order_loc@.dom().contains(id2) implies post.loc_ok(id2) by {
                    if id2 == id.0 {
                        assert(post.order_loc@[id2] == (side, slot));
                        assert(hb.levels@[slot as int]@ == pre.level_at(side, price).push(ord));
                        assert(hb.levels@[slot as int]@[hb.levels@[slot as int]@.len() - 1].id.0
                            == id.0);
                    } else {
                        assert(pre.order_loc@.dom().contains(id2));
                        assert(pre.loc_ok(id2));
                        let loc = pre.order_loc@[id2];
                        assert(post.order_loc@[id2] == loc);
                        if loc.0 == side {
                            if loc.1 == slot {
                                let lvl = pb.levels@[slot as int]@;
                                let j = choose|j: int| 0 <= j < lvl.len() && lvl[j].id.0 == id2;
                                assert(hb.levels@[slot as int]@[j].id.0 == id2);
                            } else {
                                assert(hb.levels@[loc.1 as int] == pb.levels@[loc.1 as int]);
                            }
                        } else {
                            assert(post.half(loc.0) == pre.half(loc.0));
                        }
                    }
                }
                assert forall|side2: Side, s: int, j: int|
                    0 <= s < post.half(side2).levels@.len() && 0 <= j < post.half(
                        side2,
                    ).levels@[s]@.len() implies post.entry_ok(side2, s, j) by {
                    let o = post.half(side2).levels@[s]@[j];
                    if side2 == side && s == slot as int && j == post.half(side2).levels@[s]@.len()
                        - 1 {
                        assert(o == ord);
                        assert(post.order_loc@[id.0] == (side, slot));
                    } else {
                        if side2 == side {
                            if s == slot as int {
                                assert(o == pb.levels@[s]@[j]);
                            } else {
                                assert(post.half(side2).levels@[s] == pb.levels@[s]);
                            }
                        } else {
                            assert(post.half(side2) == pre.half(side2));
                        }
                        assert(pre.entry_ok(side2, s, j));
                        assert(o.id.0 != id.0) by {
                            if o.id.0 == id.0 {
                                assert(pre.rests(id.0));
                            }
                        }
                        assert(post.order_loc@[o.id.0] == pre.order_loc@[o.id.0]);
                    }
                }
            }
        }
        true
    }

    /// Adds an order and returns its freshly drawn identifier.
    ///
    /// The identifier comes from a random source, so the book cannot promise
    /// it is new: when the drawn identifier already rests, the book is left
    /// unchanged (collision handling is the identifier source's burden —
    /// a 64-bit draw makes this all but impossible). The best bid/ask caches
    /// are not refreshed.
    pub fn add(&mut self, side: Side, price: Price, qty: OrderQty) -> (id: OrderId)
        requires
            old(self).inv(),
            price != NO_PRICE,
            qty > 0,
        ensures
            final(self).inv(),
            !old(self).rests(id.0) ==> Self::added(*old(self), *final(self), id, side, price, qty),
            old(self).rests(id.0) ==> Self::unchanged(*old(self), *final(self)),
    {
        let id = OrderId(random_u64());
        let _inserted = self.add_with_id(id, side, price, qty);
        id
    }

    /// Cancels the order with identifier `id`: it leaves the location index
    /// and its level queue. Canceling an absent identifier — in particular,
    /// canceling the same identifier twice — reports `NotFound` and leaves
    /// the book unchanged.
    pub fn cancel(&mut self, id: OrderId) -> (r: CancelResult)
        requires
            old(self).inv(),
        ensures
            final(self).inv(),
            r == (if old(self).rests(id.0) {
                CancelResult::Canceled
            } else {
                CancelResult::NotFound
            }),
            !final(self).rests(id.0),
            final(self).order_loc@.dom() == old(self).order_loc@.dom().remove(id.0),
            !old(self).rests(id.0) ==> Self::unchanged(*old(self), *final(self)),
            forall|s2: Side, q: Price|
                #[trigger] final(self).level_at(s2, q) == remove_id(old(self).level_at(s2, q), id.0),
            forall|s2: Side, q: Price|
                #[trigger] final(self).has_price(s2, q) <==> old(self).has_price(s2, q),
            final(self).best_bid == old(self).best_bid,
            final(self).best_ask == old(self).best_ask,
    {
        let ghost pre = *self;
        match self.order_loc.remove(&id.0) {
            None => {
                proof {
                    assert(self.order_loc@ =~= pre.order_loc@);
                    assert(self.order_loc@.dom() =~= pre.order_loc@.dom().remove(id.0));
                    assert forall|s2: Side, q: Price| #[trigger] self.level_at(s2, q) == remove_id(
                        pre.level_at(s2, q),
                        id.0,
                    ) by {
                        let lvl = pre.level_at(s2, q);
                        if seq_has_id(lvl, id.0) {
                            let j = choose|j: int| 0 <= j < lvl.len() && lvl[j].id.0 == id.0;
                            let s = pre.half(s2).slot_of(q);
                            assert(pre.half(s2).levels@[s]@[j].id.0 == id.0);
                            assert(pre.entry_ok(s2, s, j));
                        }
                    }
                    assert(self.inv()) by {
                        assert forall|id2: u64| #[trigger] self.order_loc@.dom().contains(
                            id2,
                        ) implies self.loc_ok(id2) by {
                            assert(pre.order_loc@.dom().contains(id2));
                            assert(pre.loc_ok(id2));
                            let loc = pre.order_loc@[id2];
                            assert(self.order_loc@[id2] == loc);
                            assert(self.half(loc.0) == pre.half(loc.0));
                        }
                        assert forall|side2: Side, s: int, j: int|
                            0 <= s < self.half(side2).levels@.len() && 0 <= j < self.half(
                                side2,
                            ).levels@[s]@.len() implies self.entry_ok(side2, s, j) by {
                            assert(self.half(side2) == pre.half(side2));
                            assert(pre.entry_ok(side2, s, j));
                        }
                    }
                }
                CancelResult::NotFound
            },
            Some(loc) => {
                let (side, slot) = loc;
                proof {
                    assert(pre.rests(id.0));
                    assert(pre.loc_ok(id.0));
                    assert(pre.order_loc@[id.0] == (side, slot));
                    assert(self.order_loc@ == pre.order_loc@.remove(id.0));
                }
                match side {
                    Side::Bid => self.bids.remove_id_at(slot, id.0),
                    Side::Ask => self.asks.remove_id_at(slot, id.0),
                }
                proof {
                    let post = *self;
                    let oside = side.spec_opposite();
                    assert(post.half(oside) == pre.half(oside));
                    assert(post.half(side).prices == pre.half(side).prices);
                    assert(post.order_loc@.dom() =~= pre.order_loc@.dom().remove(id.0));
                    let plvl = pre.half(side).levels@[slot as int]@;
                    let nlvl = post.half(side).levels@[slot as int]@;
                    assert(nlvl == remove_id(plvl, id.0));
                    assert(seq_has_id(plvl, id.0));
                    let jr = crate::half_book::id_index(plvl, id.0);
                    assert(0 <= jr < plvl.len() && plvl[jr].id.0 == id.0);
                    assert(nlvl == plvl.remove(jr));
                    plvl.remove_ensures(jr);
                    assert forall|s2: Side, q: Price| #[trigger] post.level_at(s2, q) == remove_id(
                        pre.level_at(s2, q),
                        id.0,
                    ) by {
                        let lvl = pre.level_at(s2, q);
                        if s2 == side && pre.has_price(s2, q) && pre.half(s2).slot_of(q)
                            == slot as int {
                            assert(post.level_at(s2, q) == nlvl);
                            assert(lvl == plvl);
                        } else {
                            assert(post.level_at(s2, q) == lvl) by {
                                if pre.has_price(s2, q) {
                                    if s2 == side {
                                        assert(post.half(s2).levels@[pre.half(s2).slot_of(q)]
                                            == pre.half(s2).levels@[pre.half(s2).slot_of(q)]);
                                    }
                                }
                            }
                            assert(!seq_has_id(lvl, id.0)) by {
                                if seq_has_id(lvl, id.0) {
                                    let j = choose|j: int|
                                        0 <= j < lvl.len() && lvl[j].id.0 == id.0;
                                    let s = pre.half(s2).slot_of(q);
                                    assert(pre.half(s2).levels@[s]@[j].id.0 == id.0);
                                    assert(pre.entry_ok(s2, s, j));
                                    assert(pre.order_loc@[id.0].0 == s2
                                        && pre.order_loc@[id.0].1 as int == s);
                                }
                            }
                        }
                    }
                    assert(post.inv()) by {
                        assert forall|id2: u64| #[trigger] post.order_loc@.dom().contains(
                            id2,
                        ) implies post.loc_ok(id2) by {
                            assert(id2 != id.0);
                            assert(pre.loc_ok(id2));
                            let loc2 = pre.order_loc@[id2];
                            assert(post.order_loc@[id2] == loc2);
                            if loc2.0 == side && loc2.1 == slot {
                                let j = choose|j: int|
                                    0 <= j < plvl.len() && plvl[j].id.0 == id2;
                                assert(plvl[j].id.0 == id2);
                                assert(j != jr);
                                if j < jr {
                                    assert(nlvl[j] == plvl[j]);
                                } else {
                                    assert(nlvl[j - 1] == plvl[j]);
                                }
                            } else {
                                if loc2.0 == side {
                                    assert(post.half(side).levels@[loc2.1 as int]
                                        == pre.half(side).levels@[loc2.1 as int]);
                                } else {
                                    assert(post.half(loc2.0) == pre.half(loc2.0));
                                }
                            }
                        }
                        assert forall|side2: Side, s: int, j: int|
                            0 <= s < post.half(side2).levels@.len() && 0 <= j < post.half(
                                side2,
                            ).levels@[s]@.len() implies post.entry_ok(side2, s, j) by {
                            let o = post.half(side2).levels@[s]@[j];
                            if side2 == side && s == slot as int {
                                let jo: int = if j < jr {
                                    j
                                } else {
                                    j + 1
                                };
                                assert(o == plvl[jo]);
                                assert(pre.entry_ok(side2, s, jo));
                                assert(o.id.0 != id.0) by {
                                    if o.id.0 == id.0 {
                                        assert(plvl[jo].id == plvl[jr].id);
                                    }
                                }
                            } else {
                                if side2 == side {
                                    assert(post.half(side2).levels@[s] == pre.half(
                                        side2,
                                    ).levels@[s]);
                                } else {
                                    assert(post.half(side2) == pre.half(side2));
                                }
                                assert(pre.entry_ok(side2, s, j));
                                assert(o.id.0 != id.0) by {
                                    if o.id.0 == id.0 {
                                        assert(pre.order_loc@[id.0].0 == side2
                                            && pre.order_loc@[id.0].1 as int == s);
                                    }
                                }
                            }
                        }
                    }
                }
                CancelResult::Canceled
            },
        }
    }

    /// The total quantity resting at exactly `price` on `side`: the sum of
    /// the quantities of the orders in that level. A price whose level was
    /// never allocated is `PriceNotFound`; an allocated but emptied level
    /// reports zero.
    pub fn get_total_qty(&self, side: Side, price: Price) -> (r: Result<OrderQty, BookError>)
        requires
            self.inv(),
            self.total_at(side, price) <= u64::MAX,
        ensures
            match r {
                Ok(total) => self.has_price(side, price) && total == self.total_at(side, price),
                Err(e) => e == BookError::PriceNotFound && !self.has_price(side, price),
            },
    {
        let hb = match side {
            Side::Bid => &self.bids,
            Side::Ask => &self.asks,
        };
        match hb.find_price(price) {
            None => Err(BookError::PriceNotFound),
            Some(_) => Ok(hb.get_total_qty(price)),
        }
    }

    /// Recomputes both best-price caches by scanning for the first non-empty
    /// level on each side — highest bid, lowest ask — and returns them,
    /// `NO_PRICE` standing for a side with no resting orders. Call this
    /// after any batch of mutations before reading `best_bid`/`best_ask`.
    pub fn update_best_bid_ask(&mut self) -> (r: (Price, Price))
        requires
            old(self).inv(),
        ensures
            final(self).inv(),
            final(self).bids == old(self).bids,
            final(self).asks == old(self).asks,
            final(self).order_loc@ == old(self).order_loc@,
            r == (final(self).best_bid, final(self).best_ask),
            old(self).is_best_bid(r.0),
            old(self).is_best_ask(r.1),
    {
        let ask_scan = self.asks.best_price_le(NO_PRICE);
        let bid_scan = self.bids.best_price_ge(0);
        let best_ask = match ask_scan {
            Some(ps) => ps.0,
            None => NO_PRICE,
        };
        let best_bid = match bid_scan {
            Some(ps) => ps.0,
            None => NO_PRICE,
        };
        self.best_ask = best_ask;
        self.best_bid = best_bid;
        proof {
            let pre = *old(self);
            assert(pre.is_best_ask(best_ask)) by {
                match ask_scan {
                    Some(ps) => {
                        assert(pre.nonempty_at(Side::Ask, ps.0));
                        assert forall|q: Price| pre.nonempty_at(Side::Ask, q) implies q
                            >= best_ask by {
                            assert(pre.asks.nonempty_at(q));
                            let i = pre.asks.price_index_of(q);
                            assert(pre.asks.prices@[i].0 == q && pre.asks.prices@[i].0
                                != NO_PRICE);
                            assert(q <= NO_PRICE);
                        }
                    },
                    None => {
                        assert forall|q: Price| !pre.nonempty_at(Side::Ask, q) by {
                            assert(q <= NO_PRICE);
                            assert(!pre.asks.nonempty_at(q));
                        }
                    },
                }
            }
            assert(pre.is_best_bid(best_bid)) by {
                match bid_scan {
                    Some(ps) => {
                        assert(pre.nonempty_at(Side::Bid, ps.0));
                        assert forall|q: Price| pre.nonempty_at(Side::Bid, q) implies q
                            <= best_bid by {
                            assert(pre.bids.nonempty_at(q) && q >= 0);
                        }
                    },
                    None => {
                        assert forall|q: Price| !pre.nonempty_at(Side::Bid, q) by {
                            assert(q >= 0);
                            assert(!pre.bids.nonempty_at(q));
                        }
                    },
                }
            }
            assert(self.inv()) by {
                assert forall|id2: u64| #[trigger] self.order_loc@.dom().contains(id2) implies self.loc_ok(
                    id2,
                ) by {
                    assert(pre.loc_ok(id2));
                    let loc = pre.order_loc@[id2];
                    assert(self.half(loc.0) == pre.half(loc.0));
                }
                assert forall|side2: Side, s: int, j: int|
                    0 <= s < self.half(side2).levels@.len() && 0 <= j < self.half(
                        side2,
                    ).levels@[s]@.len() implies self.entry_ok(side2, s, j) by {
                    assert(self.half(side2) == pre.half(side2));
                    assert(pre.entry_ok(side2, s, j));
                }
            }
        }
        (best_bid, best_ask)
    }
}

} // verus!
