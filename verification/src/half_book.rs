//! One side of the order book: a sparse, sorted price index over a dense,
//! append-only arena of FIFO price-level queues.

use vstd::prelude::*;
use std::collections::VecDeque;
use crate::{NO_PRICE, OrderId, OrderQty, Price};

verus! {

/// A resting order: an identifier and its open quantity.
#[derive(Debug, Clone, Copy, PartialEq, Eq, Structural)]
pub struct Order {
    /// Unique identifier for the order
    pub id: OrderId,

    /// Quantity of the order; always positive while the order rests
    pub qty: OrderQty,
}

/// The sum of the quantities of a queue of orders.
pub open spec fn qty_sum(s: Seq<Order>) -> int
    decreases s.len(),
{
    if s.len() == 0 {
        0
    } else {
        qty_sum(s.drop_last()) + s.last().qty
    }
}

/// Whether some order in `s` carries identifier `id`.
pub open spec fn seq_has_id(s: Seq<Order>, id: u64) -> bool {
    exists|j: int| 0 <= j < s.len() && s[j].id.0 == id
}

/// The position of the order carrying `id` (meaningful when `seq_has_id`).
pub open spec fn id_index(s: Seq<Order>, id: u64) -> int {
    choose|j: int| 0 <= j < s.len() && s[j].id.0 == id
}

/// `s` without the order carrying `id`; `s` itself when no order does.
pub open spec fn remove_id(s: Seq<Order>, id: u64) -> Seq<Order> {
    if seq_has_id(s, id) {
        s.remove(id_index(s, id))
    } else {
        s
    }
}

pub proof fn lemma_qty_sum_nonneg(s: Seq<Order>)
    ensures
        qty_sum(s) >= 0,
    decreases s.len(),
{
    if s.len() > 0 {
        lemma_qty_sum_nonneg(s.drop_last());
    }
}

pub proof fn lemma_qty_sum_take_step(s: Seq<Order>, i: int)
    requires
        0 <= i < s.len(),
    ensures
        qty_sum(s.take(i + 1)) == qty_sum(s.take(i)) + s[i].qty,
{
    assert(s.take(i + 1).drop_last() =~= s.take(i));
    assert(s.take(i + 1).last() == s[i]);
}

pub proof fn lemma_qty_sum_take_le(s: Seq<Order>, i: int)
    requires
        0 <= i <= s.len(),
    ensures
        qty_sum(s.take(i)) <= qty_sum(s),
    decreases s.len() - i,
{
    if i == s.len() {
        assert(s.take(i) =~= s);
    } else {
        lemma_qty_sum_take_step(s, i);
        lemma_qty_sum_take_le(s, i + 1);
        assert(s[i].qty >= 0);
    }
}

pub proof fn lemma_qty_sum_skip_front(s: Seq<Order>)
    requires
        s.len() > 0,
    ensures
        qty_sum(s) == s[0].qty + qty_sum(s.skip(1)),
    decreases s.len(),
{
    if s.len() == 1 {
        assert(s.skip(1) =~= Seq::<Order>::empty());
        assert(s.drop_last() =~= Seq::<Order>::empty());
        assert(s.last() == s[0]);
    } else {
        let d = s.drop_last();
        lemma_qty_sum_skip_front(d);
        assert(s.skip(1).drop_last() =~= d.skip(1));
        assert(s.skip(1).last() == s.last());
        assert(d[0] == s[0]);
    }
}

pub proof fn lemma_qty_sum_update_front(s: Seq<Order>, o: Order)
    requires
        s.len() > 0,
    ensures
        qty_sum(s.update(0, o)) == qty_sum(s) - s[0].qty + o.qty,
{
    let u = s.update(0, o);
    lemma_qty_sum_skip_front(s);
    lemma_qty_sum_skip_front(u);
    assert(u.skip(1) =~= s.skip(1));
    assert(u[0] == o);
}

/// One side of the book. The `prices` index is kept sorted by strictly
/// ascending price and maps each price to a slot of the `levels` arena.
/// Slots are append-only: an emptied level keeps its slot, so slot handles
/// held by the order-location index stay valid for the book's lifetime.
pub struct HalfBook {
    /// Price-to-slot index, sorted by strictly ascending price
    pub prices: Vec<(Price, usize)>,

    /// Arena of price levels; each level is a FIFO queue of orders
    pub levels: Vec<VecDeque<Order>>,
}

impl HalfBook {
    /// Well-formedness: the price index is strictly sorted, points at
    /// distinct valid slots, and never uses the `NO_PRICE` sentinel; no
    /// resting order has quantity zero; identifiers are unique within a level.
    pub open spec fn wf(self) -> bool {
        &&& forall|i: int, j: int|
            0 <= i < j < self.prices@.len() ==> (#[trigger] self.prices@[i]).0 < (
            #[trigger] self.prices@[j]).0
        &&& forall|i: int|
            0 <= i < self.prices@.len() ==> (#[trigger] self.prices@[i]).1 < self.levels@.len()
        &&& forall|i: int, j: int|
            0 <= i < self.prices@.len() && 0 <= j < self.prices@.len() && i != j ==> (
            #[trigger] self.prices@[i]).1 != (#[trigger] self.prices@[j]).1
        &&& forall|i: int| 0 <= i < self.prices@.len() ==> (#[trigger] self.prices@[i]).0 != NO_PRICE
        &&& forall|s: int, j: int|
            0 <= s < self.levels@.len() && 0 <= j < self.levels@[s]@.len() ==> (
            #[trigger] self.levels@[s]@[j]).qty > 0
        &&& forall|s: int, j1: int, j2: int|
            #![trigger self.levels@[s]@[j1], self.levels@[s]@[j2]]
            0 <= s < self.levels@.len() && 0 <= j1 < self.levels@[s]@.len() && 0 <= j2
                < self.levels@[s]@.len() && self.levels@[s]@[j1].id == self.levels@[s]@[j2].id
                ==> j1 == j2
    }

    /// Whether a level (possibly empty) was ever allocated for price `p`.
    pub open spec fn spec_has_price(self, p: Price) -> bool {
        exists|i: int| 0 <= i < self.prices@.len() && (#[trigger] self.prices@[i]).0 == p
    }

    /// The position of `p` in the sorted price index.
    pub open spec fn price_index_of(self, p: Price) -> int {
        choose|i: int| 0 <= i < self.prices@.len() && (#[trigger] self.prices@[i]).0 == p
    }

    /// The arena slot that holds the level for price `p`.
    pub open spec fn slot_of(self, p: Price) -> int {
        self.prices@[self.price_index_of(p)].1 as int
    }

    /// The queue of orders resting at price `p`, oldest first; empty when
    /// `p` was never allocated.
    pub open spec fn level_at(self, p: Price) -> Seq<Order> {
        if self.spec_has_price(p) {
            self.levels@[self.slot_of(p)]@
        } else {
            Seq::<Order>::empty()
        }
    }

    /// The total resting quantity at price `p`.
    pub open spec fn total_at(self, p: Price) -> int {
        qty_sum(self.level_at(p))
    }

    /// Whether at least one order rests at price `p`.
    pub open spec fn nonempty_at(self, p: Price) -> bool {
        self.level_at(p).len() > 0
    }

    /// In a well-formed half book a price occurs at most once in the index.
    pub proof fn lemma_price_index_unique(self, p: Price, i: int)
        requires
            self.wf(),
            0 <= i < self.prices@.len(),
            self.prices@[i].0 == p,
        ensures
            self.spec_has_price(p),
            self.price_index_of(p) == i,
    {
        assert(self.spec_has_price(p));
        let j = self.price_index_of(p);
        if i < j {
            assert(self.prices@[i].0 < self.prices@[j].0);
        }
        if j < i {
            assert(self.prices@[j].0 < self.prices@[i].0);
        }
    }

    /// Distinct prices resolve to distinct arena slots.
    pub proof fn lemma_slot_distinct(self, p: Price, q: Price)
        requires
            self.wf(),
            self.spec_has_price(p),
            self.spec_has_price(q),
            p != q,
        ensures
            self.slot_of(p) != self.slot_of(q),
    {
        let i = self.price_index_of(p);
        let j = self.price_index_of(q);
        assert(0 <= i < self.prices@.len() && self.prices@[i].0 == p);
        assert(0 <= j < self.prices@.len() && self.prices@[j].0 == q);
    }

    /// An empty half book.
    pub fn new() -> (r: HalfBook)
        ensures
            r.wf(),
            r.prices@.len() == 0,
            r.levels@.len() == 0,
            forall|p: Price| !r.spec_has_price(p),
            forall|p: Price| r.level_at(p) == Seq::<Order>::empty(),
    {
        HalfBook { prices: Vec::new(), levels: Vec::with_capacity(64) }
    }

    /// Looks up the position of `p` in the price index by binary search,
    /// O(log P) in the number of allocated levels.
    pub fn find_price(&self, p: Price) -> (r: Option<usize>)
        requires
            self.wf(),
        ensures
            match r {
                Some(i) => self.spec_has_price(p) && i < self.prices@.len() && self.prices@[
                    i as int].0 == p && self.price_index_of(p) == i && self.slot_of(p)
                    == self.prices@[i as int].1,
                None => !self.spec_has_price(p),
            },
    {
        let n = self.prices.len();
        let mut lo: usize = 0;
        let mut hi: usize = n;
        while lo < hi
            invariant
                self.wf(),
                n == self.prices@.len(),
                lo <= hi <= n,
                forall|k: int| 0 <= k < lo ==> (#[trigger] self.prices@[k]).0 < p,
                forall|k: int| hi <= k < n ==> (#[trigger] self.prices@[k]).0 > p,
            decreases hi - lo,
        {
            let m = lo + (hi - lo) / 2;
            let entry = self.prices[m].0;
            if entry == p {
                proof {
                    self.lemma_price_index_unique(p, m as int);
                }
                return Some(m);
            } else if entry < p {
                proof {
                    assert forall|k: int| 0 <= k < m + 1 implies (#[trigger] self.prices@[k]).0
                        < p by {
                        if k < m as int {
                            assert(self.prices@[k].0 < self.prices@[m as int].0);
                        }
                    }
                }
                lo = m + 1;
            } else {
                proof {
                    assert forall|k: int| m <= k < n implies (#[trigger] self.prices@[k]).0 > p by {
                        if k > m as int {
                            assert(self.prices@[m as int].0 < self.prices@[k].0);
                        }
                    }
                }
                hi = m;
            }
        }
        proof {
            assert forall|k: int| 0 <= k < n implies (#[trigger] self.prices@[k]).0 != p by {}
        }
        None
    }

    /// Appends `ord` to the level at `price`, allocating a fresh slot and
    /// index entry when the price is new; returns the level's slot.
    pub fn insert(&mut self, price: Price, ord: Order) -> (slot: usize)
        requires
            old(self).wf(),
            price != NO_PRICE,
            ord.qty > 0,
            !seq_has_id(old(self).level_at(price), ord.id.0),
        ensures
            final(self).wf(),
            final(self).spec_has_price(price),
            slot == final(self).slot_of(price),
            slot < final(self).levels@.len(),
            final(self).levels@[slot as int]@ == old(self).level_at(price).push(ord),
            final(self).level_at(price) == old(self).level_at(price).push(ord),
            forall|q: Price|
                q != price ==> final(self).level_at(q) == old(self).level_at(q) && (final(
                self).spec_has_price(q) <==> old(self).spec_has_price(q)),
            old(self).spec_has_price(price) ==> final(self).prices == old(self).prices && final(
                self).levels@.len() == old(self).levels@.len() && slot == old(self).slot_of(price),
            !old(self).spec_has_price(price) ==> final(self).levels@.len() == old(
                self).levels@.len() + 1 && slot == old(self).levels@.len(),
            forall|s: int|
                0 <= s < old(self).levels@.len() && s != slot ==> final(self).levels@[s] == old(
                self).levels@[s],
    {
        match self.find_price(price) {
            Some(i) => {
                let slot = self.prices[i].1;
                self.levels[slot].push_back(ord);
                proof {
                    let pre = *old(self);
                    assert(self.prices == pre.prices);
                    assert(self.levels@[slot as int]@ == pre.level_at(price).push(ord));
                    assert forall|q: Price| q != price implies self.level_at(q) == pre.level_at(q)
                        && (self.spec_has_price(q) <==> pre.spec_has_price(q)) by {
                        if pre.spec_has_price(q) {
                            pre.lemma_slot_distinct(price, q);
                            assert(self.levels@[pre.slot_of(q)] == pre.levels@[pre.slot_of(q)]);
                        }
                    }
                    assert(self.wf()) by {
                        assert forall|s: int, j: int|
                            0 <= s < self.levels@.len() && 0 <= j < self.levels@[s]@.len() implies (
                        #[trigger] self.levels@[s]@[j]).qty > 0 by {
                            if s == slot as int && j == self.levels@[s]@.len() - 1 {
                            } else {
                                assert(self.levels@[s]@[j] == pre.levels@[s]@[j]);
                            }
                        }
                        assert forall|s: int, j1: int, j2: int|
                            #![trigger self.levels@[s]@[j1], self.levels@[s]@[j2]]
                            0 <= s < self.levels@.len() && 0 <= j1 < self.levels@[s]@.len() && 0
                                <= j2 < self.levels@[s]@.len() && self.levels@[s]@[j1].id
                                == self.levels@[s]@[j2].id implies j1 == j2 by {
                            if s == slot as int {
                                let lvl = pre.levels@[s]@;
                                if j1 < lvl.len() && j2 < lvl.len() {
                                } else if j1 == lvl.len() && j2 < lvl.len() {
                                    assert(lvl[j2].id.0 == ord.id.0);
                                } else if j2 == lvl.len() && j1 < lvl.len() {
                                    assert(lvl[j1].id.0 == ord.id.0);
                                }
                            }
                        }
                    }
                }
                slot
            },
            None => {
                let slot = self.levels.len();
                let mut q: VecDeque<Order> = VecDeque::new();
                q.push_back(ord);
                self.levels.push(q);
                let pos = self.price_insert_pos(price);
                self.prices.insert(pos, (price, slot));
                proof {
                    let pre = *old(self);
                    let ps = pre.prices@;
                    let nps = self.prices@;
                    ps.insert_ensures(pos as int, (price, slot));
                    assert(nps[pos as int] == (price, slot));
                    assert(nps.len() == ps.len() + 1);
                    assert(self.levels@.len() == pre.levels@.len() + 1);
                    assert(self.levels@[slot as int]@ =~= pre.level_at(price).push(ord));
                    assert(self.wf()) by {
                        assert forall|i: int, j: int| 0 <= i < j < nps.len() implies (
                        #[trigger] nps[i]).0 < (#[trigger] nps[j]).0 by {
                            if i < pos as int && j < pos as int {
                                assert(nps[i] == ps[i] && nps[j] == ps[j]);
                            } else if i < pos as int && j == pos as int {
                                assert(nps[i] == ps[i]);
                            } else if i < pos as int && j > pos as int {
                                assert(nps[i] == ps[i] && nps[j] == ps[j - 1]);
                            } else if i == pos as int {
                                assert(nps[j] == ps[j - 1]);
                            } else {
                                assert(nps[i] == ps[i - 1] && nps[j] == ps[j - 1]);
                            }
                        }
                        assert forall|i: int| 0 <= i < nps.len() implies (#[trigger] nps[i]).1
                            < self.levels@.len() && nps[i].0 != NO_PRICE by {
                            if i < pos as int {
                                assert(nps[i] == ps[i]);
                            } else if i > pos as int {
                                assert(nps[i] == ps[i - 1]);
                            }
                        }
                        assert forall|i: int, j: int|
                            0 <= i < nps.len() && 0 <= j < nps.len() && i != j implies (
                        #[trigger] nps[i]).1 != (#[trigger] nps[j]).1 by {
                            assert(forall|k: int|
                                0 <= k < nps.len() && k != pos as int ==> (#[trigger] nps[k]).1
                                    < pre.levels@.len());
                            if i < pos as int {
                                assert(nps[i] == ps[i]);
                            } else if i > pos as int {
                                assert(nps[i] == ps[i - 1]);
                            }
                            if j < pos as int {
                                assert(nps[j] == ps[j]);
                            } else if j > pos as int {
                                assert(nps[j] == ps[j - 1]);
                            }
                        }
                        assert forall|s: int, j: int|
                            0 <= s < self.levels@.len() && 0 <= j < self.levels@[s]@.len() implies (
                        #[trigger] self.levels@[s]@[j]).qty > 0 by {
                            if s < slot as int {
                                assert(self.levels@[s] == pre.levels@[s]);
                            }
                        }
                        assert forall|s: int, j1: int, j2: int|
                            #![trigger self.levels@[s]@[j1], self.levels@[s]@[j2]]
                            0 <= s < self.levels@.len() && 0 <= j1 < self.levels@[s]@.len() && 0
                                <= j2 < self.levels@[s]@.len() && self.levels@[s]@[j1].id
                                == self.levels@[s]@[j2].id implies j1 == j2 by {
                            if s < slot as int {
                                assert(self.levels@[s] == pre.levels@[s]);
                            }
                        }
                    }
                    self.lemma_price_index_unique(price, pos as int);
                    assert forall|q2: Price| q2 != price implies self.level_at(q2) == pre.level_at(
                        q2) && (self.spec_has_price(q2) <==> pre.spec_has_price(q2)) by {
                        if pre.spec_has_price(q2) {
                            let i = pre.price_index_of(q2);
                            assert(0 <= i < ps.len() && ps[i].0 == q2);
                            if i < pos as int {
                                assert(nps[i] == ps[i]);
                                self.lemma_price_index_unique(q2, i);
                            } else {
                                assert(nps[i + 1] == ps[i]);
                                self.lemma_price_index_unique(q2, i + 1);
                            }
                            assert(self.slot_of(q2) == pre.slot_of(q2));
                            assert(pre.slot_of(q2) < pre.levels@.len());
                            assert(self.levels@[pre.slot_of(q2)] == pre.levels@[pre.slot_of(q2)]);
                        } else {
                            if self.spec_has_price(q2) {
                                let i = self.price_index_of(q2);
                                assert(0 <= i < nps.len() && nps[i].0 == q2);
                                if i < pos as int {
                                    assert(ps[i].0 == q2);
                                    assert(pre.spec_has_price(q2));
                                } else if i == pos as int {
                                    assert(q2 == price);
                                } else {
                                    assert(ps[i - 1].0 == q2);
                                    assert(pre.spec_has_price(q2));
                                }
                            }
                        }
                    }
                }
                slot
            },
        }
    }

    /// The position at which `price` must be spliced into the sorted index.
    fn price_insert_pos(&self, price: Price) -> (pos: usize)
        requires
            self.wf(),
            !self.spec_has_price(price),
        ensures
            pos <= self.prices@.len(),
            forall|k: int| 0 <= k < pos ==> (#[trigger] self.prices@[k]).0 < price,
            forall|k: int| pos <= k < self.prices@.len() ==> (#[trigger] self.prices@[k]).0 > price,
    {
        let n = self.prices.len();
        let mut i: usize = 0;
        while i < n
            invariant
                self.wf(),
                !self.spec_has_price(price),
                n == self.prices@.len(),
                i <= n,
                forall|k: int| 0 <= k < i ==> (#[trigger] self.prices@[k]).0 < price,
            decreases n - i,
        {
            if self.prices[i].0 > price {
                return i;
            }
            assert(self.prices@[i as int].0 != price);
            i = i + 1;
        }
        n
    }

    /// The total quantity resting at `price`, summed oldest-first.
    pub fn get_total_qty(&self, price: Price) -> (r: OrderQty)
        requires
            self.wf(),
            self.spec_has_price(price),
            self.total_at(price) <= u64::MAX,
        ensures
            r == self.total_at(price),
    {
        let i = match self.find_price(price) {
            Some(i) => i,
            None => {
                proof {
                    assert(false);
                }
                0
            },
        };
        let slot = self.prices[i].1;
        let lvl = &self.levels[slot];
        let ghost s = self.level_at(price);
        let n = lvl.len();
        let mut total: u64 = 0;
        let mut j: usize = 0;
        proof {
            assert(s.take(0) =~= Seq::<Order>::empty());
        }
        while j < n
            invariant
                n == s.len(),
                j <= n,
                lvl@ == s,
                qty_sum(s) <= u64::MAX,
                total == qty_sum(s.take(j as int)),
            decreases n - j,
        {
            proof {
                lemma_qty_sum_take_step(s, j as int);
                lemma_qty_sum_take_le(s, j as int + 1);
                lemma_qty_sum_nonneg(s.take(j as int));
            }
            total = total + lvl[j].qty;
            j = j + 1;
        }
        proof {
            assert(s.take(n as int) =~= s);
        }
        total
    }

    /// Removes the order carrying `id` from the level in `slot`; a no-op
    /// when no order there carries it.
    pub fn remove_id_at(&mut self, slot: usize, id: u64)
        requires
            old(self).wf(),
            slot < old(self).levels@.len(),
        ensures
            final(self).wf(),
            final(self).prices == old(self).prices,
            final(self).levels@.len() == old(self).levels@.len(),
            forall|s: int|
                0 <= s < old(self).levels@.len() && s != slot ==> final(self).levels@[s] == old(
                self).levels@[s],
            final(self).levels@[slot as int]@ == remove_id(old(self).levels@[slot as int]@, id),
    {
        let ghost lvl = self.levels@[slot as int]@;
        let n = self.levels[slot].len();
        let mut j: usize = 0;
        while j < n
            invariant
                self.wf(),
                self == old(self),
                slot < self.levels@.len(),
                n == lvl.len(),
                lvl == self.levels@[slot as int]@,
                j <= n,
                forall|k: int| 0 <= k < j ==> lvl[k].id.0 != id,
            decreases n - j,
        {
            if self.levels[slot][j].id.0 == id {
                let removed = self.levels[slot].remove(j);
                proof {
                    let pre = *old(self);
                    assert(seq_has_id(lvl, id));
                    let jj = id_index(lvl, id);
                    assert(0 <= jj < lvl.len() && lvl[jj].id.0 == id);
                    assert(lvl[jj].id == lvl[j as int].id);
                    assert(jj == j as int);
                    lvl.remove_ensures(j as int);
                    assert(self.levels@[slot as int]@ == remove_id(lvl, id));
                    assert(self.wf()) by {
                        let nl = self.levels@[slot as int]@;
                        assert forall|s: int, jx: int|
                            0 <= s < self.levels@.len() && 0 <= jx < self.levels@[s]@.len() implies (
                        #[trigger] self.levels@[s]@[jx]).qty > 0 by {
                            if s == slot as int {
                                if jx < j as int {
                                    assert(nl[jx] == lvl[jx]);
                                } else {
                                    assert(nl[jx] == lvl[jx + 1]);
                                }
                            } else {
                                assert(self.levels@[s] == pre.levels@[s]);
                            }
                        }
                        assert forall|s: int, j1: int, j2: int|
                            #![trigger self.levels@[s]@[j1], self.levels@[s]@[j2]]
                            0 <= s < self.levels@.len() && 0 <= j1 < self.levels@[s]@.len() && 0
                                <= j2 < self.levels@[s]@.len() && self.levels@[s]@[j1].id
                                == self.levels@[s]@[j2].id implies j1 == j2 by {
                            if s == slot as int {
                                let o1: int = if j1 < j as int {
                                    j1
                                } else {
                                    j1 + 1
                                };
                                let o2: int = if j2 < j as int {
                                    j2
                                } else {
                                    j2 + 1
                                };
                                assert(nl[j1] == lvl[o1]);
                                assert(nl[j2] == lvl[o2]);
                            } else {
                                assert(self.levels@[s] == pre.levels@[s]);
                            }
                        }
                    }
                }
                return ;
            }
            j = j + 1;
        }
        proof {
            assert(!seq_has_id(lvl, id));
        }
    }

    /// Pops the oldest order from the level in `slot`.
    pub fn pop_front_at(&mut self, slot: usize) -> (r: Order)
        requires
            old(self).wf(),
            slot < old(self).levels@.len(),
            old(self).levels@[slot as int]@.len() > 0,
        ensures
            final(self).wf(),
            final(self).prices == old(self).prices,
            final(self).levels@.len() == old(self).levels@.len(),
            forall|s: int|
                0 <= s < old(self).levels@.len() && s != slot ==> final(self).levels@[s] == old(
                self).levels@[s],
            r == old(self).levels@[slot as int]@[0],
            final(self).levels@[slot as int]@ == old(self).levels@[slot as int]@.skip(1),
            r.qty > 0,
            !seq_has_id(final(self).levels@[slot as int]@, r.id.0),
    {
        let ghost lvl = self.levels@[slot as int]@;
        let r = match self.levels[slot].pop_front() {
            Some(o) => o,
            None => {
                proof {
                    assert(false);
                }
                Order { id: OrderId(0), qty: 1 }
            },
        };
        proof {
            let pre = *old(self);
            let nl = self.levels@[slot as int]@;
            assert(nl =~= lvl.skip(1));
            assert(self.wf()) by {
                assert forall|s: int, jx: int|
                    0 <= s < self.levels@.len() && 0 <= jx < self.levels@[s]@.len() implies (
                #[trigger] self.levels@[s]@[jx]).qty > 0 by {
                    if s == slot as int {
                        assert(nl[jx] == lvl[jx + 1]);
                    } else {
                        assert(self.levels@[s] == pre.levels@[s]);
                    }
                }
                assert forall|s: int, j1: int, j2: int|
                    #![trigger self.levels@[s]@[j1], self.levels@[s]@[j2]]
                    0 <= s < self.levels@.len() && 0 <= j1 < self.levels@[s]@.len() && 0 <= j2
                        < self.levels@[s]@.len() && self.levels@[s]@[j1].id
                        == self.levels@[s]@[j2].id implies j1 == j2 by {
                    if s == slot as int {
                        assert(nl[j1] == lvl[j1 + 1]);
                        assert(nl[j2] == lvl[j2 + 1]);
                    } else {
                        assert(self.levels@[s] == pre.levels@[s]);
                    }
                }
            }
            assert forall|jx: int| 0 <= jx < nl.len() implies nl[jx].id.0 != r.id.0 by {
                assert(nl[jx] == lvl[jx + 1]);
                assert(lvl[0].id.0 == r.id.0);
                if nl[jx].id.0 == r.id.0 {
                    assert(lvl[jx + 1].id == lvl[0].id);
                }
            }
        }
        r
    }

    /// Puts `ord` back at the front of the level in `slot`, restoring its
    /// time priority.
    pub fn push_front_at(&mut self, slot: usize, ord: Order)
        requires
            old(self).wf(),
            slot < old(self).levels@.len(),
            ord.qty > 0,
            !seq_has_id(old(self).levels@[slot as int]@, ord.id.0),
        ensures
            final(self).wf(),
            final(self).prices == old(self).prices,
            final(self).levels@.len() == old(self).levels@.len(),
            forall|s: int|
                0 <= s < old(self).levels@.len() && s != slot ==> final(self).levels@[s] == old(
                self).levels@[s],
            final(self).levels@[slot as int]@ == seq![ord] + old(self).levels@[slot as int]@,
    {
        let ghost lvl = self.levels@[slot as int]@;
        self.levels[slot].push_front(ord);
        proof {
            let pre = *old(self);
            let nl = self.levels@[slot as int]@;
            assert(nl == seq![ord] + lvl);
            assert(nl[0] == ord);
            assert(forall|jx: int| 0 < jx < nl.len() ==> nl[jx] == lvl[jx - 1]);
            assert(self.wf()) by {
                assert forall|s: int, jx: int|
                    0 <= s < self.levels@.len() && 0 <= jx < self.levels@[s]@.len() implies (
                #[trigger] self.levels@[s]@[jx]).qty > 0 by {
                    if s == slot as int {
                        if jx > 0 {
                            assert(nl[jx] == lvl[jx - 1]);
                        }
                    } else {
                        assert(self.levels@[s] == pre.levels@[s]);
                    }
                }
                assert forall|s: int, j1: int, j2: int|
                    #![trigger self.levels@[s]@[j1], self.levels@[s]@[j2]]
                    0 <= s < self.levels@.len() && 0 <= j1 < self.levels@[s]@.len() && 0 <= j2
                        < self.levels@[s]@.len() && self.levels@[s]@[j1].id
                        == self.levels@[s]@[j2].id implies j1 == j2 by {
                    if s == slot as int && j1 != j2 {
                        if j1 == 0 {
                            assert(nl[j2] == lvl[j2 - 1]);
                            assert(lvl[j2 - 1].id.0 == ord.id.0);
                        } else if j2 == 0 {
                            assert(nl[j1] == lvl[j1 - 1]);
                            assert(lvl[j1 - 1].id.0 == ord.id.0);
                        } else {
                            assert(nl[j1] == lvl[j1 - 1]);
                            assert(nl[j2] == lvl[j2 - 1]);
                        }
                    } else if s != slot as int {
                        assert(self.levels@[s] == pre.levels@[s]);
                    }
                }
            }
        }
    }

    /// The lowest price at or below `limit` whose level still holds an
    /// order, with its slot; `None` when every such level is empty.
    pub fn best_price_le(&self, limit: Price) -> (r: Option<(Price, usize)>)
        requires
            self.wf(),
        ensures
            match r {
                Some(ps) => {
                    &&& self.spec_has_price(ps.0)
                    &&& ps.0 <= limit
                    &&& self.nonempty_at(ps.0)
                    &&& ps.1 == self.slot_of(ps.0)
                    &&& ps.1 < self.levels@.len()
                    &&& forall|q: Price| self.nonempty_at(q) && q <= limit ==> ps.0 <= q
                },
                None => forall|q: Price| q <= limit ==> !self.nonempty_at(q),
            },
    {
        let n = self.prices.len();
        let mut i: usize = 0;
        while i < n
            invariant
                self.wf(),
                n == self.prices@.len(),
                i <= n,
                forall|k: int|
                    0 <= k < i ==> (#[trigger] self.prices@[k]).0 > limit || self.levels@[
                        self.prices@[k].1 as int]@.len() == 0,
            ensures
                i <= n,
                forall|k: int|
                    0 <= k < i ==> (#[trigger] self.prices@[k]).0 > limit || self.levels@[
                        self.prices@[k].1 as int]@.len() == 0,
                i < n ==> self.prices@[i as int].0 > limit,
            decreases n - i,
        {
            let (p, slot) = self.prices[i];
            if p > limit {
                break ;
            }
            if self.levels[slot].len() > 0 {
                proof {
                    self.lemma_price_index_unique(p, i as int);
                    assert(self.nonempty_at(p));
                    assert forall|q: Price| self.nonempty_at(q) && q <= limit implies p <= q by {
                        let k = self.price_index_of(q);
                        assert(0 <= k < self.prices@.len() && self.prices@[k].0 == q);
                        assert(self.slot_of(q) == self.prices@[k].1 as int);
                        if k < i as int {
                            assert(self.levels@[self.prices@[k].1 as int]@.len() == 0);
                        } else if k > i as int {
                            assert(self.prices@[i as int].0 < self.prices@[k].0);
                        }
                    }
                }
                return Some((p, slot));
            }
            proof {
                self.lemma_price_index_unique(p, i as int);
                assert(self.levels@[self.prices@[i as int].1 as int]@.len() == 0);
            }
            i = i + 1;
        }
        proof {
            assert forall|q: Price| q <= limit implies !self.nonempty_at(q) by {
                if self.spec_has_price(q) {
                    let k = self.price_index_of(q);
                    assert(0 <= k < self.prices@.len() && self.prices@[k].0 == q);
                    if i < n && k >= i as int {
                        assert(self.prices@[i as int].0 <= self.prices@[k].0);
                    }
                }
            }
        }
        None
    }

    /// The highest price at or above `limit` whose level still holds an
    /// order, with its slot; `None` when every such level is empty.
    pub fn best_price_ge(&self, limit: Price) -> (r: Option<(Price, usize)>)
        requires
            self.wf(),
        ensures
            match r {
                Some(ps) => {
                    &&& self.spec_has_price(ps.0)
                    &&& ps.0 >= limit
                    &&& self.nonempty_at(ps.0)
                    &&& ps.1 == self.slot_of(ps.0)
                    &&& ps.1 < self.levels@.len()
                    &&& forall|q: Price| self.nonempty_at(q) && q >= limit ==> ps.0 >= q
                },
                None => forall|q: Price| q >= limit ==> !self.nonempty_at(q),
            },
    {
        let n = self.prices.len();
        let mut i: usize = n;
        while i > 0
            invariant
                self.wf(),
                n == self.prices@.len(),
                i <= n,
                forall|k: int|
                    i <= k < n ==> (#[trigger] self.prices@[k]).0 < limit || self.levels@[
                        self.prices@[k].1 as int]@.len() == 0,
            ensures
                i <= n,
                forall|k: int|
                    i <= k < n ==> (#[trigger] self.prices@[k]).0 < limit || self.levels@[
                        self.prices@[k].1 as int]@.len() == 0,
                i > 0 ==> self.prices@[i as int - 1].0 < limit,
            decreases i,
        {
            let (p, slot) = self.prices[i - 1];
            if p < limit {
                break ;
            }
            if self.levels[slot].len() > 0 {
                proof {
                    self.lemma_price_index_unique(p, i as int - 1);
                    assert(self.nonempty_at(p));
                    assert forall|q: Price| self.nonempty_at(q) && q >= limit implies p >= q by {
                        let k = self.price_index_of(q);
                        assert(0 <= k < self.prices@.len() && self.prices@[k].0 == q);
                        assert(self.slot_of(q) == self.prices@[k].1 as int);
                        if k > i as int - 1 {
                            assert(self.levels@[self.prices@[k].1 as int]@.len() == 0);
                        } else if k < i as int - 1 {
                            assert(self.prices@[k].0 < self.prices@[i as int - 1].0);
                        }
                    }
                }
                return Some((p, slot));
            }
            proof {
                self.lemma_price_index_unique(p, i as int - 1);
                assert(self.levels@[self.prices@[i as int - 1].1 as int]@.len() == 0);
            }
            i = i - 1;
        }
        proof {
            assert forall|q: Price| q >= limit implies !self.nonempty_at(q) by {
                if self.spec_has_price(q) {
                    let k = self.price_index_of(q);
                    assert(0 <= k < self.prices@.len() && self.prices@[k].0 == q);
                    if i > 0 && k < i as int {
                        assert(self.prices@[k].0 <= self.prices@[i as int - 1].0);
                    }
                }
            }
        }
        None
    }
}

} // verus!
