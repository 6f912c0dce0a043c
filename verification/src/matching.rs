//! The matching engine: consumes an incoming order against resting liquidity
//! on the opposite side under strict price-then-time priority and rests any
//! unmatched remainder.

use vstd::prelude::*;
use crate::book::OrderBook;
use crate::half_book::{
    lemma_qty_sum_skip_front, lemma_qty_sum_update_front, qty_sum, seq_has_id, Order,
};
use crate::{BookError, OrderId, OrderQty, Price, Side, NO_PRICE};

verus! {

/// The lifecycle state an incoming order reached during matching.
#[derive(Debug, Clone, Copy, PartialEq, Eq, Structural)]
pub enum OrderStatus {
    /// Construction-only placeholder; never observable in a submit result
    Uninitialized,

    /// No crossing occurred; the order rests untouched
    Created,

    /// The order matched in full
    Filled,

    /// The order matched in part and its remainder rests
    PartiallyFilled,
}

/// The outcome of one submission: the status reached, the unmatched
/// remainder, and each counter-trade as a `(price, quantity)` pair in
/// execution order.
#[derive(Debug)]
pub struct FillResult {
    /// Lifecycle state the incoming order reached
    pub status: OrderStatus,

    /// Quantity left unmatched (resting in the book when positive)
    pub remaining: OrderQty,

    /// Matched counter-trades in execution order
    pub fills: Vec<(Price, OrderQty)>,
}

/// The sum of the traded quantities of a fill list.
pub open spec fn fills_qty_sum(s: Seq<(Price, OrderQty)>) -> int
    decreases s.len(),
{
    if s.len() == 0 {
        0
    } else {
        fills_qty_sum(s.drop_last()) + s.last().1
    }
}

/// The sum of price times quantity over a fill list.
pub open spec fn fills_notional_sum(s: Seq<(Price, OrderQty)>) -> int
    decreases s.len(),
{
    if s.len() == 0 {
        0
    } else {
        fills_notional_sum(s.drop_last()) + s.last().0 * s.last().1
    }
}

pub proof fn lemma_fills_sums_bounds(s: Seq<(Price, OrderQty)>)
    ensures
        fills_qty_sum(s) >= 0,
        fills_notional_sum(s) >= 0,
        fills_notional_sum(s) <= u64::MAX * fills_qty_sum(s),
    decreases s.len(),
{
    if s.len() > 0 {
        lemma_fills_sums_bounds(s.drop_last());
        let p = s.last().0;
        let q = s.last().1;
        assert(p * q >= 0 && p * q <= u64::MAX * q) by (nonlinear_arith)
            requires
                0 <= p <= u64::MAX,
                0 <= q,
        ;
        assert(u64::MAX * fills_qty_sum(s.drop_last()) + u64::MAX * q == u64::MAX * (fills_qty_sum(
            s.drop_last(),
        ) + q)) by (nonlinear_arith);
    }
}

/// The sum of the quantities traded at exactly price `q` in a fill list.
pub open spec fn fills_qty_at(s: Seq<(Price, OrderQty)>, q: Price) -> int
    decreases s.len(),
{
    if s.len() == 0 {
        0
    } else {
        fills_qty_at(s.drop_last(), q) + if s.last().0 == q {
            s.last().1 as int
        } else {
            0
        }
    }
}

/// Whether an incoming order with limit `limit` on `side` crosses a resting
/// level at price `q` on the opposite side.
pub open spec fn crosses(side: Side, limit: Price, q: Price) -> bool {
    match side {
        Side::Bid => q <= limit,
        Side::Ask => q >= limit,
    }
}

/// Whether a resting price `a` is at least as attractive as `b` to an
/// incoming order on `side`: a bid prefers cheap asks, an ask rich bids.
pub open spec fn price_preferred(side: Side, a: Price, b: Price) -> bool {
    match side {
        Side::Bid => a <= b,
        Side::Ask => a >= b,
    }
}

/// `post` is `pre` with the first `k` orders fully consumed and, possibly,
/// the next order's quantity reduced — exactly the shapes a FIFO level can
/// take while a matching walk eats it from the front.
pub open spec fn consumed_at(pre: Seq<Order>, post: Seq<Order>, k: int) -> bool {
    &&& 0 <= k <= pre.len()
    &&& (post == pre.skip(k) || (k < pre.len() && post.len() > 0 && post == pre.skip(k).update(
        0,
        post[0],
    ) && post[0].id == pre[k].id && 0 < post[0].qty < pre[k].qty))
}

/// `post` arises from `pre` by front-first (time-priority) consumption.
pub open spec fn consumed_prefix(pre: Seq<Order>, post: Seq<Order>) -> bool {
    exists|k: int| consumed_at(pre, post, k)
}

pub proof fn lemma_consumed_refl(s: Seq<Order>)
    ensures
        consumed_prefix(s, s),
{
    assert(s.skip(0) =~= s);
    assert(consumed_at(s, s, 0));
}

/// Popping the whole front order keeps the consumption shape.
pub proof fn lemma_consumed_pop(a: Seq<Order>, b: Seq<Order>, c: Seq<Order>)
    requires
        consumed_prefix(a, b),
        b.len() > 0,
        c == b.skip(1),
    ensures
        consumed_prefix(a, c),
{
    let k = choose|k: int| consumed_at(a, b, k);
    assert(c =~= a.skip(k + 1)) by {
        assert(b.len() == a.len() - k);
        assert(forall|i: int| 0 <= i < c.len() ==> c[i] == b[i + 1]);
        assert(forall|i: int| 1 <= i < b.len() ==> b[i] == a.skip(k)[i]);
        assert(forall|i: int|
            0 <= i < a.skip(k + 1).len() ==> #[trigger] a.skip(k + 1)[i] == a[k + 1 + i]);
    }
    assert(consumed_at(a, c, k + 1));
}

/// Reducing the front order's quantity keeps the consumption shape.
pub proof fn lemma_consumed_reduce(a: Seq<Order>, b: Seq<Order>, c: Seq<Order>, newq: OrderQty)
    requires
        consumed_prefix(a, b),
        b.len() > 0,
        0 < newq < b[0].qty,
        c == b.update(0, Order { id: b[0].id, qty: newq }),
    ensures
        consumed_prefix(a, c),
{
    let k = choose|k: int| consumed_at(a, b, k);
    assert(k < a.len());
    assert(c[0] == Order { id: b[0].id, qty: newq });
    assert(c =~= a.skip(k).update(0, c[0])) by {
        assert(forall|i: int| 1 <= i < c.len() ==> c[i] == b[i]);
        assert(forall|i: int| 1 <= i < b.len() ==> b[i] == a.skip(k)[i]);
    }
    assert(b[0].id == a[k].id && b[0].qty <= a[k].qty);
    assert(consumed_at(a, c, k));
}

/// Price-time priority within one level: a matching walk consumes a FIFO
/// level strictly front-first. Whatever `submit` left of a crossing level
/// (`consumed_prefix`, as its contract states), there is a cut `k` such that
/// the `k` oldest orders are gone entirely, every younger order survives
/// untouched and in its original order, and the oldest survivor — if any —
/// keeps its identity with at most its quantity reduced. In particular no
/// order loses quantity while an older order at the same price still rests.
pub proof fn lemma_price_time_priority(pre: Seq<Order>, post: Seq<Order>)
    requires
        consumed_prefix(pre, post),
        forall|j: int| 0 <= j < pre.len() ==> (#[trigger] pre[j]).qty > 0,
    ensures
        exists|k: int|
            {
                &&& 0 <= k <= pre.len()
                &&& post.len() == pre.len() - k
                &&& forall|j: int| k < j < pre.len() ==> post[j - k] == pre[j]
                &&& (post.len() > 0 ==> post[0].id == pre[k].id && 0 < post[0].qty <= pre[k].qty)
            },
{
    let k = choose|k: int| consumed_at(pre, post, k);
    if post == pre.skip(k) {
        assert forall|j: int| k < j < pre.len() implies post[j - k] == pre[j] by {
            assert(pre.skip(k)[j - k] == pre[j]);
        }
        if post.len() > 0 {
            assert(post[0] == pre.skip(k)[0]);
            assert(pre[k].qty > 0 || true);
        }
    } else {
        assert forall|j: int| k < j < pre.len() implies post[j - k] == pre[j] by {
            assert(post[j - k] == pre.skip(k)[j - k]);
            assert(pre.skip(k)[j - k] == pre[j]);
        }
    }
    assert(0 <= k <= pre.len() && post.len() == pre.len() - k && (forall|j: int|
        k < j < pre.len() ==> post[j - k] == pre[j]) && (post.len() > 0 ==> post[0].id == pre[k].id
        && 0 < post[0].qty <= pre[k].qty)) by {
        if post.len() > 0 && post == pre.skip(k) {
            assert(post[0] == pre[k]);
        }
    }
}

impl FillResult {
    /// A construction-only placeholder result: no fills, sentinel remainder.
    pub fn new() -> (r: FillResult)
        ensures
            r.status == OrderStatus::Uninitialized,
            r.remaining == u64::MAX,
            r.fills@.len() == 0,
    {
        FillResult { fills: Vec::new(), remaining: u64::MAX, status: OrderStatus::Uninitialized }
    }

    /// The volume-weighted average price of the fills, as the exact ratio
    /// (total notional, total quantity); `UndefinedAverage` when no fill was
    /// recorded, rather than a silent division by zero.
    pub fn avg_price(&self) -> (r: Result<(u128, u64), BookError>)
        requires
            fills_qty_sum(self.fills@) <= u64::MAX,
        ensures
            match r {
                Ok(nd) => self.fills@.len() > 0 && nd.0 == fills_notional_sum(self.fills@) && nd.1
                    == fills_qty_sum(self.fills@) && nd.1 > 0,
                Err(e) => e == BookError::UndefinedAverage && (self.fills@.len() == 0
                    || fills_qty_sum(self.fills@) == 0),
            },
    {
        if self.fills.len() == 0 {
            return Err(BookError::UndefinedAverage);
        }
        let ghost s = self.fills@;
        let n = self.fills.len();
        let mut notional: u128 = 0;
        let mut quantity: u64 = 0;
        let mut j: usize = 0;
        proof {
            assert(s.take(0) =~= Seq::<(Price, OrderQty)>::empty());
        }
        while j < n
            invariant
                n == s.len(),
                j <= n,
                s == self.fills@,
                fills_qty_sum(s) <= u64::MAX,
                quantity == fills_qty_sum(s.take(j as int)),
                notional == fills_notional_sum(s.take(j as int)),
            decreases n - j,
        {
            let (p, q) = self.fills[j];
            proof {
                assert(s.take(j as int + 1).drop_last() =~= s.take(j as int));
                assert(s.take(j as int + 1).last() == s[j as int]);
                lemma_fills_sums_bounds(s.take(j as int + 1));
                lemma_fills_sums_bounds(s.take(j as int));
                lemma_fills_sums_bounds(s);
                lemma_fills_qty_take_le(s, j as int + 1);
                assert(fills_notional_sum(s.take(j as int + 1)) <= u64::MAX * fills_qty_sum(
                    s.take(j as int + 1),
                ));
                assert(u64::MAX * fills_qty_sum(s.take(j as int + 1)) <= u64::MAX * (u64::MAX
                    as int)) by (nonlinear_arith)
                    requires
                        fills_qty_sum(s.take(j as int + 1)) <= u64::MAX,
                        fills_qty_sum(s.take(j as int + 1)) >= 0,
                ;
                assert(u64::MAX * (u64::MAX as int) < u128::MAX);
            }
            notional = notional + (p as u128) * (q as u128);
            quantity = quantity + q;
            j = j + 1;
        }
        proof {
            assert(s.take(n as int) =~= s);
        }
        if quantity == 0 {
            return Err(BookError::UndefinedAverage);
        }
        Ok((notional, quantity))
    }
}

pub proof fn lemma_fills_qty_take_le(s: Seq<(Price, OrderQty)>, i: int)
    requires
        0 <= i <= s.len(),
    ensures
        fills_qty_sum(s.take(i)) <= fills_qty_sum(s),
    decreases s.len() - i,
{
    if i == s.len() {
        assert(s.take(i) =~= s);
    } else {
        assert(s.take(i + 1).drop_last() =~= s.take(i));
        assert(s.take(i + 1).last() == s[i]);
        lemma_fills_qty_take_le(s, i + 1);
        assert(s[i].1 >= 0);
    }
}

impl OrderBook {
    /// What a successful submission guarantees: quantity conservation, fills
    /// only at crossing resting prices, front-first consumption per level,
    /// exhaustion of all crossing levels whenever a remainder is left, the
    /// remainder (if any) rested at the submitted price, a truthful status,
    /// and refreshed best bid/ask caches.
    pub open spec fn submit_ok(pre: OrderBook, post: OrderBook, side: Side, price: Price, qty: OrderQty, fr: FillResult) -> bool {
        let opp = side.spec_opposite();
        &&& fr.remaining + fills_qty_sum(fr.fills@) == qty
        &&& fr.remaining <= qty
        &&& forall|i: int|
            0 <= i < fr.fills@.len() ==> (#[trigger] fr.fills@[i]).1 > 0 && crosses(
                side,
                price,
                fr.fills@[i].0,
            ) && pre.has_price(opp, fr.fills@[i].0)
        &&& forall|q: Price|
            crosses(side, price, q) ==> consumed_prefix(
                pre.level_at(opp, q),
                #[trigger] post.level_at(opp, q),
            )
        &&& forall|q: Price|
            !crosses(side, price, q) ==> #[trigger] post.level_at(opp, q) == pre.level_at(opp, q)
        &&& forall|q: Price|
            qty_sum(pre.level_at(opp, q)) == qty_sum(#[trigger] post.level_at(opp, q))
                + fills_qty_at(fr.fills@, q)
        &&& forall|i: int, j: int|
            #![trigger fr.fills@[i], fr.fills@[j]]
            0 <= i < j < fr.fills@.len() ==> price_preferred(side, fr.fills@[i].0, fr.fills@[j].0)
        &&& forall|q: Price| q != price ==> #[trigger] post.level_at(side, q) == pre.level_at(side, q)
        &&& (fr.remaining == 0 ==> post.level_at(side, price) == pre.level_at(side, price))
        &&& (fr.remaining > 0 ==> post.level_at(side, price) == pre.level_at(side, price)
            || exists|nid: OrderId|
            post.level_at(side, price) == pre.level_at(side, price).push(
                Order { id: nid, qty: fr.remaining },
            ))
        &&& (fr.remaining > 0 ==> forall|q: Price|
            crosses(side, price, q) ==> (#[trigger] post.level_at(opp, q)).len() == 0)
        &&& (fr.status == OrderStatus::Filled <==> fr.remaining == 0 && fr.fills@.len() > 0)
        &&& (fr.status == OrderStatus::PartiallyFilled <==> fr.remaining > 0 && fr.fills@.len() > 0)
        &&& (fr.status == OrderStatus::Created <==> fr.fills@.len() == 0)
        &&& (fr.fills@.len() == 0 ==> fr.remaining == qty)
        &&& post.is_best_bid(post.best_bid)
        &&& post.is_best_ask(post.best_ask)
        &&& forall|s2: Side, q: Price| pre.has_price(s2, q) ==> #[trigger] post.has_price(s2, q)
        &&& forall|s2: Side, q: Price|
            #[trigger] post.has_price(s2, q) ==> pre.has_price(s2, q) || (s2 == side && q == price)
    }

    /// Trades against the front order of the level at `price` (slot `slot`)
    /// on `side`, taking at most `max_take`: the front order is consumed in
    /// full when `max_take` covers it, otherwise its quantity is reduced in
    /// place at the front, keeping its time priority.
    fn consume_front(&mut self, side: Side, price: Price, slot: usize, max_take: OrderQty) -> (traded: OrderQty)
        requires
            old(self).inv(),
            old(self).has_price(side, price),
            old(self).half(side).slot_of(price) == slot as int,
            slot < old(self).half(side).levels@.len(),
            old(self).level_at(side, price).len() > 0,
            max_take > 0,
        ensures
            final(self).inv(),
            traded > 0,
            traded <= max_take,
            traded == (if old(self).level_at(side, price)[0].qty <= max_take {
                old(self).level_at(side, price)[0].qty
            } else {
                max_take
            }),
            old(self).level_at(side, price)[0].qty <= max_take ==> final(self).level_at(side, price)
                == old(self).level_at(side, price).skip(1),
            old(self).level_at(side, price)[0].qty > max_take ==> final(self).level_at(side, price)
                == old(self).level_at(side, price).update(
                0,
                Order {
                    id: old(self).level_at(side, price)[0].id,
                    qty: (old(self).level_at(side, price)[0].qty - max_take) as u64,
                },
            ),
            forall|s2: Side, q: Price|
                !(s2 == side && q == price) ==> #[trigger] final(self).level_at(s2, q) == old(
                    self,
                ).level_at(s2, q),
            forall|s2: Side, q: Price|
                #[trigger] final(self).has_price(s2, q) <==> old(self).has_price(s2, q),
            final(self).half(side).slot_of(price) == slot as int,
            final(self).half(side.spec_opposite()) == old(self).half(side.spec_opposite()),
            final(self).best_bid == old(self).best_bid,
            final(self).best_ask == old(self).best_ask,
    {
        let ghost pre = *self;
        let ghost plvl = pre.level_at(side, price);
        let front = match side {
            Side::Bid => self.bids.pop_front_at(slot),
            Side::Ask => self.asks.pop_front_at(slot),
        };
        proof {
            assert(front == plvl[0]);
            assert(self.half(side).levels@[slot as int]@ =~= plvl.skip(1));
        }
        if front.qty <= max_take {
            let _removed = self.order_loc.remove(&front.id.0);
            proof {
                let post = *self;
                let oside = side.spec_opposite();
                assert(post.half(oside) == pre.half(oside));
                assert(post.half(side).prices == pre.half(side).prices);
                assert(post.order_loc@ == pre.order_loc@.remove(front.id.0));
                self.lemma_after_front_change(pre, side, price, slot, plvl.skip(1), front.id.0);
            }
            front.qty
        } else {
            let back = Order { id: front.id, qty: front.qty - max_take };
            proof {
                assert(!seq_has_id(self.half(side).levels@[slot as int]@, back.id.0));
            }
            match side {
                Side::Bid => self.bids.push_front_at(slot, back),
                Side::Ask => self.asks.push_front_at(slot, back),
            }
            proof {
                let post = *self;
                let oside = side.spec_opposite();
                assert(post.half(oside) == pre.half(oside));
                assert(post.half(side).prices == pre.half(side).prices);
                assert(post.half(side).levels@[slot as int]@ =~= plvl.update(0, back));
                assert(post.order_loc@ == pre.order_loc@);
                self.lemma_after_front_update(pre, side, price, slot, plvl.update(0, back));
            }
            max_take
        }
    }

    /// After fully removing the front order of one level (and its location
    /// entry), the invariant and all other levels survive.
    proof fn lemma_after_front_change(self, pre: OrderBook, side: Side, price: Price, slot: usize, nlvl: Seq<Order>, gone: u64)
        requires
            pre.inv(),
            pre.has_price(side, price),
            pre.half(side).slot_of(price) == slot as int,
            slot < pre.half(side).levels@.len(),
            pre.level_at(side, price).len() > 0,
            gone == pre.level_at(side, price)[0].id.0,
            nlvl == pre.level_at(side, price).skip(1),
            self.half(side).wf(),
            self.half(side).prices == pre.half(side).prices,
            self.half(side).levels@.len() == pre.half(side).levels@.len(),
            self.half(side).levels@[slot as int]@ == nlvl,
            forall|s: int|
                0 <= s < pre.half(side).levels@.len() && s != slot ==> self.half(side).levels@[s]
                    == pre.half(side).levels@[s],
            self.half(side.spec_opposite()) == pre.half(side.spec_opposite()),
            self.order_loc@ == pre.order_loc@.remove(gone),
        ensures
            self.inv(),
            self.level_at(side, price) == nlvl,
            forall|s2: Side, q: Price|
                !(s2 == side && q == price) ==> #[trigger] self.level_at(s2, q) == pre.level_at(
                    s2,
                    q,
                ),
            forall|s2: Side, q: Price|
                #[trigger] self.has_price(s2, q) <==> pre.has_price(s2, q),
            self.half(side).slot_of(price) == slot as int,
    {
        let plvl = pre.level_at(side, price);
        assert(self.half(side).spec_has_price(price) <==> pre.half(side).spec_has_price(price));
        assert(self.half(side).slot_of(price) == pre.half(side).slot_of(price));
        assert(self.level_at(side, price) == nlvl);
        assert forall|s2: Side, q: Price| !(s2 == side && q == price) implies #[trigger] self.level_at(s2, q)
            == pre.level_at(s2, q) by {
            if s2 == side {
                if pre.half(s2).spec_has_price(q) {
                    pre.half(s2).lemma_slot_distinct(price, q);
                    assert(self.half(s2).levels@[pre.half(s2).slot_of(q)] == pre.half(
                        s2,
                    ).levels@[pre.half(s2).slot_of(q)]);
                }
            }
        }
        assert forall|id2: u64| #[trigger] self.order_loc@.dom().contains(id2) implies self.loc_ok(
            id2,
        ) by {
            assert(id2 != gone);
            assert(pre.order_loc@.dom().contains(id2));
            assert(pre.loc_ok(id2));
            let loc = pre.order_loc@[id2];
            assert(self.order_loc@[id2] == loc);
            if loc.0 == side && loc.1 == slot {
                let j = choose|j: int| 0 <= j < plvl.len() && plvl[j].id.0 == id2;
                assert(j != 0) by {
                    if j == 0 {
                        assert(plvl[0].id.0 == gone);
                    }
                }
                assert(nlvl[j - 1] == plvl[j]);
            } else {
                if loc.0 == side {
                    assert(self.half(side).levels@[loc.1 as int] == pre.half(side).levels@[loc.1
                        as int]);
                } else {
                    assert(self.half(loc.0) == pre.half(loc.0));
                }
            }
        }
        assert forall|side2: Side, s: int, j: int|
            0 <= s < self.half(side2).levels@.len() && 0 <= j < self.half(
                side2,
            ).levels@[s]@.len() implies self.entry_ok(side2, s, j) by {
            let o = self.half(side2).levels@[s]@[j];
            if side2 == side && s == slot as int {
                assert(o == plvl[j + 1]);
                assert(pre.entry_ok(side2, s, j + 1));
                assert(o.id.0 != gone) by {
                    if o.id.0 == gone {
                        assert(plvl[j + 1].id == plvl[0].id);
                    }
                }
            } else {
                if side2 == side {
                    assert(self.half(side2).levels@[s] == pre.half(side2).levels@[s]);
                } else {
                    assert(self.half(side2) == pre.half(side2));
                }
                assert(pre.entry_ok(side2, s, j));
                assert(o.id.0 != gone) by {
                    if o.id.0 == gone {
                        assert(pre.order_loc@[gone].0 == side && pre.order_loc@[gone].1 as int
                            == slot as int);
                        assert(pre.order_loc@[o.id.0].0 == side2 && pre.order_loc@[o.id.0].1 as int
                            == s);
                    }
                }
            }
        }
    }

    /// After reducing the front order of one level in place, the invariant
    /// and all other levels survive.
    proof fn lemma_after_front_update(self, pre: OrderBook, side: Side, price: Price, slot: usize, nlvl: Seq<Order>)
        requires
            pre.inv(),
            pre.has_price(side, price),
            pre.half(side).slot_of(price) == slot as int,
            slot < pre.half(side).levels@.len(),
            pre.level_at(side, price).len() > 0,
            nlvl.len() == pre.level_at(side, price).len(),
            nlvl[0].id == pre.level_at(side, price)[0].id,
            nlvl == pre.level_at(side, price).update(0, nlvl[0]),
            self.half(side).wf(),
            self.half(side).prices == pre.half(side).prices,
            self.half(side).levels@.len() == pre.half(side).levels@.len(),
            self.half(side).levels@[slot as int]@ == nlvl,
            forall|s: int|
                0 <= s < pre.half(side).levels@.len() && s != slot ==> self.half(side).levels@[s]
                    == pre.half(side).levels@[s],
            self.half(side.spec_opposite()) == pre.half(side.spec_opposite()),
            self.order_loc@ == pre.order_loc@,
        ensures
            self.inv(),
            self.level_at(side, price) == nlvl,
            forall|s2: Side, q: Price|
                !(s2 == side && q == price) ==> #[trigger] self.level_at(s2, q) == pre.level_at(
                    s2,
                    q,
                ),
            forall|s2: Side, q: Price|
                #[trigger] self.has_price(s2, q) <==> pre.has_price(s2, q),
            self.half(side).slot_of(price) == slot as int,
    {
        let plvl = pre.level_at(side, price);
        assert(self.half(side).slot_of(price) == pre.half(side).slot_of(price));
        assert(self.level_at(side, price) == nlvl);
        assert forall|s2: Side, q: Price| !(s2 == side && q == price) implies #[trigger] self.level_at(s2, q)
            == pre.level_at(s2, q) by {
            if s2 == side {
                if pre.half(s2).spec_has_price(q) {
                    pre.half(s2).lemma_slot_distinct(price, q);
                    assert(self.half(s2).levels@[pre.half(s2).slot_of(q)] == pre.half(
                        s2,
                    ).levels@[pre.half(s2).slot_of(q)]);
                }
            }
        }
        assert forall|id2: u64| #[trigger] self.order_loc@.dom().contains(id2) implies self.loc_ok(
            id2,
        ) by {
            assert(pre.loc_ok(id2));
            let loc = pre.order_loc@[id2];
            if loc.0 == side && loc.1 == slot {
                let j = choose|j: int| 0 <= j < plvl.len() && plvl[j].id.0 == id2;
                assert(nlvl[j].id == plvl[j].id);
            } else {
                if loc.0 == side {
                    assert(self.half(side).levels@[loc.1 as int] == pre.half(side).levels@[loc.1
                        as int]);
                } else {
                    assert(self.half(loc.0) == pre.half(loc.0));
                }
            }
        }
        assert forall|side2: Side, s: int, j: int|
            0 <= s < self.half(side2).levels@.len() && 0 <= j < self.half(
                side2,
            ).levels@[s]@.len() implies self.entry_ok(side2, s, j) by {
            let o = self.half(side2).levels@[s]@[j];
            if side2 == side && s == slot as int {
                assert(o.id == plvl[j].id);
                assert(pre.entry_ok(side2, s, j));
                assert(pre.half(side2).levels@[s]@[j].id == o.id);
            } else {
                if side2 == side {
                    assert(self.half(side2).levels@[s] == pre.half(side2).levels@[s]);
                } else {
                    assert(self.half(side2) == pre.half(side2));
                }
                assert(pre.entry_ok(side2, s, j));
            }
        }
    }

    /// Matches an incoming limit order against resting liquidity on the
    /// opposite side under price-then-time priority, then rests any
    /// remainder at `price` and refreshes the best bid/ask caches.
    ///
    /// A zero quantity is `InvalidQuantity` and the `NO_PRICE` sentinel is
    /// `InvalidPrice`; both leave the book untouched.
    pub fn submit(&mut self, side: Side, price: Price, qty: OrderQty) -> (r: Result<
        FillResult,
        BookError,
    >)
        requires
            old(self).inv(),
        ensures
            final(self).inv(),
            qty == 0 ==> r == Err::<FillResult, BookError>(BookError::InvalidQuantity)
                && Self::unchanged(*old(self), *final(self)),
            qty > 0 && price == NO_PRICE ==> r == Err::<FillResult, BookError>(
                BookError::InvalidPrice,
            ) && Self::unchanged(*old(self), *final(self)),
            qty > 0 && price != NO_PRICE ==> r is Ok && Self::submit_ok(
                *old(self),
                *final(self),
                side,
                price,
                qty,
                r->Ok_0,
            ),
    {
        if qty == 0 {
            return Err(BookError::InvalidQuantity);
        }
        if price == NO_PRICE {
            return Err(BookError::InvalidPrice);
        }
        let ghost orig = *self;
        let opp = side.opposite();
        let mut remaining: OrderQty = qty;
        let mut fills: Vec<(Price, OrderQty)> = Vec::new();
        proof {
            assert(fills_qty_sum(fills@) == 0);
            assert forall|q: Price| true implies consumed_prefix(
                orig.level_at(opp, q),
                #[trigger] self.level_at(opp, q),
            ) by {
                lemma_consumed_refl(orig.level_at(opp, q));
            }
            assert(forall|q: Price| fills_qty_at(fills@, q) == 0);
        }
        while remaining > 0
            invariant
                self.inv(),
                opp == side.spec_opposite(),
                remaining <= qty,
                remaining + fills_qty_sum(fills@) == qty,
                forall|i: int|
                    0 <= i < fills@.len() ==> (#[trigger] fills@[i]).1 > 0 && crosses(
                        side,
                        price,
                        fills@[i].0,
                    ) && orig.has_price(opp, fills@[i].0),
                self.half(side) == orig.half(side),
                self.best_bid == orig.best_bid,
                self.best_ask == orig.best_ask,
                forall|q: Price|
                    crosses(side, price, q) ==> consumed_prefix(
                        orig.level_at(opp, q),
                        #[trigger] self.level_at(opp, q),
                    ),
                forall|q: Price|
                    !crosses(side, price, q) ==> #[trigger] self.level_at(opp, q) == orig.level_at(
                        opp,
                        q,
                    ),
                forall|q: Price|
                    qty_sum(orig.level_at(opp, q)) == qty_sum(#[trigger] self.level_at(opp, q))
                        + fills_qty_at(fills@, q),
                forall|i: int, j: int|
                    #![trigger fills@[i], fills@[j]]
                    0 <= i < j < fills@.len() ==> price_preferred(side, fills@[i].0, fills@[j].0),
                forall|i: int, q: Price|
                    #![trigger fills@[i], self.level_at(opp, q)]
                    0 <= i < fills@.len() && crosses(side, price, q) && self.level_at(opp, q).len()
                        > 0 ==> price_preferred(side, fills@[i].0, q),
                forall|s2: Side, q: Price|
                    #[trigger] self.has_price(s2, q) <==> orig.has_price(s2, q),
            ensures
                self.inv(),
                remaining <= qty,
                remaining + fills_qty_sum(fills@) == qty,
                forall|i: int|
                    0 <= i < fills@.len() ==> (#[trigger] fills@[i]).1 > 0 && crosses(
                        side,
                        price,
                        fills@[i].0,
                    ) && orig.has_price(opp, fills@[i].0),
                self.half(side) == orig.half(side),
                self.best_bid == orig.best_bid,
                self.best_ask == orig.best_ask,
                forall|q: Price|
                    crosses(side, price, q) ==> consumed_prefix(
                        orig.level_at(opp, q),
                        #[trigger] self.level_at(opp, q),
                    ),
                forall|q: Price|
                    !crosses(side, price, q) ==> #[trigger] self.level_at(opp, q) == orig.level_at(
                        opp,
                        q,
                    ),
                forall|q: Price|
                    qty_sum(orig.level_at(opp, q)) == qty_sum(#[trigger] self.level_at(opp, q))
                        + fills_qty_at(fills@, q),
                forall|i: int, j: int|
                    #![trigger fills@[i], fills@[j]]
                    0 <= i < j < fills@.len() ==> price_preferred(side, fills@[i].0, fills@[j].0),
                forall|i: int, q: Price|
                    #![trigger fills@[i], self.level_at(opp, q)]
                    0 <= i < fills@.len() && crosses(side, price, q) && self.level_at(opp, q).len()
                        > 0 ==> price_preferred(side, fills@[i].0, q),
                forall|s2: Side, q: Price|
                    #[trigger] self.has_price(s2, q) <==> orig.has_price(s2, q),
                remaining > 0 ==> forall|q: Price|
                    crosses(side, price, q) ==> (#[trigger] self.level_at(opp, q)).len() == 0,
            decreases remaining,
        {
            let scan = match side {
                Side::Bid => self.asks.best_price_le(price),
                Side::Ask => self.bids.best_price_ge(price),
            };
            match scan {
                None => {
                    proof {
                        assert forall|q: Price| crosses(side, price, q) implies (
                        #[trigger] self.level_at(opp, q)).len() == 0 by {
                            assert(!self.half(opp).nonempty_at(q));
                        }
                    }
                    break ;
                },
                Some(ps) => {
                    let (p, slot) = ps;
                    let ghost mid = *self;
                    proof {
                        assert(mid.has_price(opp, p));
                        assert(mid.half(opp).slot_of(p) == slot as int);
                        assert(mid.level_at(opp, p).len() > 0);
                        assert(crosses(side, price, p));
                    }
                    let ghost mlvl = mid.level_at(opp, p);
                    let ghost prev_fills = fills@;
                    let traded = self.consume_front(opp, p, slot, remaining);
                    fills.push((p, traded));
                    remaining = remaining - traded;
                    proof {
                        let post = *self;
                        assert(fills@ == prev_fills.push((p, traded)));
                        assert(fills@.drop_last() =~= prev_fills);
                        assert(fills@.last() == (p, traded));
                        assert(fills_qty_sum(fills@) == fills_qty_sum(prev_fills) + traded);
                        assert forall|i: int|
                            0 <= i < fills@.len() implies (#[trigger] fills@[i]).1 > 0 && crosses(
                            side,
                            price,
                            fills@[i].0,
                        ) && orig.has_price(opp, fills@[i].0) by {
                            if i < prev_fills.len() {
                                assert(fills@[i] == prev_fills[i]);
                            } else {
                                assert(fills@[i] == (p, traded));
                                assert(mid.has_price(opp, p));
                            }
                        }
                        assert forall|q: Price| crosses(side, price, q) implies consumed_prefix(
                            orig.level_at(opp, q),
                            #[trigger] post.level_at(opp, q),
                        ) by {
                            if q == p {
                                if mlvl[0].qty <= traded {
                                    lemma_consumed_pop(
                                        orig.level_at(opp, q),
                                        mlvl,
                                        post.level_at(opp, p),
                                    );
                                } else {
                                    lemma_consumed_reduce(
                                        orig.level_at(opp, q),
                                        mlvl,
                                        post.level_at(opp, p),
                                        (mlvl[0].qty - traded) as u64,
                                    );
                                }
                            } else {
                                assert(post.level_at(opp, q) == mid.level_at(opp, q));
                            }
                        }
                        assert forall|q: Price| true implies qty_sum(orig.level_at(opp, q))
                            == qty_sum(#[trigger] post.level_at(opp, q)) + fills_qty_at(
                            fills@,
                            q,
                        ) by {
                            assert(fills_qty_at(fills@, q) == fills_qty_at(prev_fills, q) + if p
                                == q {
                                traded as int
                            } else {
                                0
                            });
                            if q == p {
                                if mlvl[0].qty <= traded {
                                    lemma_qty_sum_skip_front(mlvl);
                                } else {
                                    lemma_qty_sum_update_front(
                                        mlvl,
                                        Order { id: mlvl[0].id, qty: (mlvl[0].qty - traded) as u64 },
                                    );
                                }
                            } else {
                                assert(post.level_at(opp, q) == mid.level_at(opp, q));
                            }
                        }
                        assert forall|i: int, j: int|
                            #![trigger fills@[i], fills@[j]]
                            0 <= i < j < fills@.len() implies price_preferred(
                            side,
                            fills@[i].0,
                            fills@[j].0,
                        ) by {
                            if j < prev_fills.len() {
                                assert(fills@[i] == prev_fills[i] && fills@[j] == prev_fills[j]);
                            } else {
                                assert(fills@[j] == (p, traded));
                                assert(fills@[i] == prev_fills[i]);
                                assert(crosses(side, price, p) && mid.level_at(opp, p).len() > 0);
                            }
                        }
                        assert forall|i: int, q: Price|
                            #![trigger fills@[i], post.level_at(opp, q)]
                            0 <= i < fills@.len() && crosses(side, price, q) && post.level_at(
                                opp,
                                q,
                            ).len() > 0 implies price_preferred(side, fills@[i].0, q) by {
                            assert(mid.level_at(opp, q).len() > 0) by {
                                if q != p {
                                    assert(post.level_at(opp, q) == mid.level_at(opp, q));
                                }
                            }
                            if i < prev_fills.len() {
                                assert(fills@[i] == prev_fills[i]);
                            } else {
                                assert(fills@[i] == (p, traded));
                                assert(mid.half(opp).nonempty_at(q));
                            }
                        }
                    }
                },
            }
        }
        let status = if fills.len() == 0 {
            OrderStatus::Created
        } else if remaining > 0 {
            OrderStatus::PartiallyFilled
        } else {
            OrderStatus::Filled
        };
        let ghost consumed_state = *self;
        if remaining > 0 {
            let rest_id = self.add(side, price, remaining);
            proof {
                let rs = *self;
                if consumed_state.rests(rest_id.0) {
                    assert(Self::unchanged(consumed_state, rs));
                    assert forall|s2: Side, q: Price| true implies #[trigger] rs.level_at(s2, q)
                        == consumed_state.level_at(s2, q) by {
                        assert(rs.half(s2) == consumed_state.half(s2));
                    }
                    assert forall|s2: Side, q: Price| true implies (#[trigger] rs.has_price(s2, q)
                        <==> consumed_state.has_price(s2, q)) by {
                        assert(rs.half(s2) == consumed_state.half(s2));
                    }
                } else {
                    assert(Self::added(consumed_state, rs, rest_id, side, price, remaining));
                    assert(rs.level_at(side, price) == consumed_state.level_at(side, price).push(
                        Order { id: rest_id, qty: remaining },
                    ));
                }
                assert forall|s2: Side, q: Price| !(s2 == side && q == price) implies #[trigger] rs.level_at(
                    s2,
                    q,
                ) == consumed_state.level_at(s2, q) by {}
                assert forall|s2: Side, q: Price|
                    consumed_state.has_price(s2, q) implies #[trigger] rs.has_price(s2, q) by {}
                assert forall|s2: Side, q: Price| #[trigger] rs.has_price(s2, q) implies consumed_state.has_price(
                    s2,
                    q,
                ) || (s2 == side && q == price) by {}
                assert(rs.level_at(side, price) == consumed_state.level_at(side, price) || exists|
                    nid: OrderId,
                |
                    rs.level_at(side, price) == consumed_state.level_at(side, price).push(
                        Order { id: nid, qty: remaining },
                    ));
            }
        }
        let ghost rested_state = *self;
        proof {
            assert forall|s2: Side, q: Price|
                !(s2 == side && q == price) implies #[trigger] rested_state.level_at(s2, q)
                == consumed_state.level_at(s2, q) by {
                if rested_state == consumed_state {
                    assert(rested_state.half(s2) == consumed_state.half(s2));
                }
            }
            assert forall|s2: Side, q: Price|
                consumed_state.has_price(s2, q) implies #[trigger] rested_state.has_price(
                s2,
                q,
            ) by {
                if rested_state == consumed_state {
                    assert(rested_state.half(s2) == consumed_state.half(s2));
                }
            }
            assert forall|s2: Side, q: Price| #[trigger] rested_state.has_price(s2, q) implies consumed_state.has_price(
                s2,
                q,
            ) || (s2 == side && q == price) by {
                if rested_state == consumed_state {
                    assert(rested_state.half(s2) == consumed_state.half(s2));
                }
            }
            assert forall|q: Price| true implies #[trigger] consumed_state.level_at(side, q)
                == orig.level_at(side, q) by {
                assert(consumed_state.half(side) == orig.half(side));
            }
            assert forall|q: Price| crosses(side, price, q) implies consumed_prefix(
                orig.level_at(opp, q),
                #[trigger] rested_state.level_at(opp, q),
            ) by {
                assert(rested_state.level_at(opp, q) == consumed_state.level_at(opp, q));
            }
            assert forall|q: Price| true implies qty_sum(orig.level_at(opp, q)) == qty_sum(
                #[trigger] rested_state.level_at(opp, q),
            ) + fills_qty_at(fills@, q) by {
                assert(rested_state.level_at(opp, q) == consumed_state.level_at(opp, q));
            }
            assert(remaining > 0 ==> forall|q: Price|
                crosses(side, price, q) ==> (#[trigger] rested_state.level_at(opp, q)).len() == 0);
        }
        let _best = self.update_best_bid_ask();
        proof {
            let post = *self;
            assert(post.bids == rested_state.bids && post.asks == rested_state.asks);
            assert forall|s2: Side, q: Price| true implies #[trigger] post.level_at(s2, q)
                == rested_state.level_at(s2, q) by {
                assert(post.half(s2) == rested_state.half(s2));
            }
            assert forall|s2: Side, q: Price| true implies (#[trigger] post.has_price(s2, q)
                <==> rested_state.has_price(s2, q)) by {
                assert(post.half(s2) == rested_state.half(s2));
            }
            assert(post.is_best_bid(post.best_bid)) by {
                assert(rested_state.is_best_bid(post.best_bid));
                assert forall|q: Price| post.nonempty_at(Side::Bid, q) <==> rested_state.nonempty_at(
                    Side::Bid,
                    q,
                ) by {
                    assert(post.half(Side::Bid) == rested_state.half(Side::Bid));
                }
            }
            assert(post.is_best_ask(post.best_ask)) by {
                assert(rested_state.is_best_ask(post.best_ask));
                assert forall|q: Price| post.nonempty_at(Side::Ask, q) <==> rested_state.nonempty_at(
                    Side::Ask,
                    q,
                ) by {
                    assert(post.half(Side::Ask) == rested_state.half(Side::Ask));
                }
            }
        }
        Ok(FillResult { status, remaining, fills })
    }
}

} // verus!

