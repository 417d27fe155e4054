//! The order book: two priority-ordered collections of resting orders.
//!
//! Each side is kept sorted from worst to best price-time priority, so the
//! order to match next always stands at the end of its side. The book never
//! touches the ledger.

use vstd::prelude::*;

use crate::order::Order;
use crate::order::Side;
use crate::order::distinct_ids;
use crate::order::lower_priority;
use crate::order::side_ok;
use crate::order::sorted_side;

verus! {

/// The abstract state of a book: the resting bids and asks, each from worst
/// to best priority.
pub struct BookModel {
    pub bids: Seq<Order>,
    pub asks: Seq<Order>,
}

/// Some order of `s` carries id `id`.
pub open spec fn contains_id(s: Seq<Order>, id: u64) -> bool {
    exists|i: int| 0 <= i < s.len() && (#[trigger] s[i]).id == id
}

/// The index of the order with id `id` (unique when ids are distinct).
pub open spec fn idx_of_id(s: Seq<Order>, id: u64) -> int {
    choose|i: int| 0 <= i < s.len() && (#[trigger] s[i]).id == id
}

/// A newly arriving order at `price` takes its place in front of `o` (that
/// is, `o` is matched strictly after it): `o`'s price is no better, and the
/// newcomer's later arrival loses every price tie.
pub open spec fn displaces(side: Side, price: u64, o: Order) -> bool {
    match side {
        Side::Bid => o.price >= price,
        Side::Ask => o.price <= price,
    }
}

/// Where a newly arriving order at `price` is inserted: just before the first
/// entry it displaces, so after every entry with strictly better priority.
pub open spec fn spec_insert_pos(side: Side, s: Seq<Order>, price: u64) -> int
    decreases s.len(),
{
    if s.len() == 0 {
        0
    } else if displaces(side, price, s[0]) {
        0
    } else {
        1 + spec_insert_pos(side, s.subrange(1, s.len() as int), price)
    }
}

/// A side after the order at index `i` is filled by `fill` units: reduced in
/// place, or removed when nothing of it is left.
pub open spec fn reduce_seq(s: Seq<Order>, i: int, fill: u64) -> Seq<Order> {
    if s[i].quantity == fill {
        s.remove(i)
    } else {
        s.update(
            i,
            Order {
                id: s[i].id,
                user_id: s[i].user_id,
                side: s[i].side,
                price: s[i].price,
                quantity: (s[i].quantity - fill) as u64,
                sequence: s[i].sequence,
            },
        )
    }
}

/// The insertion position lies within the sequence, everything before it has
/// strictly better priority, and the entry at it (if any) is displaced.
pub proof fn lemma_insert_pos_bounds(side: Side, s: Seq<Order>, price: u64)
    ensures
        0 <= spec_insert_pos(side, s, price) <= s.len(),
        forall|k: int|
            0 <= k < spec_insert_pos(side, s, price) ==> !displaces(side, price, #[trigger] s[k]),
        spec_insert_pos(side, s, price) < s.len() ==> displaces(
            side,
            price,
            s[spec_insert_pos(side, s, price)],
        ),
    decreases s.len(),
{
    if s.len() > 0 && !displaces(side, price, s[0]) {
        let tail = s.subrange(1, s.len() as int);
        lemma_insert_pos_bounds(side, tail, price);
        let pos = spec_insert_pos(side, s, price);
        assert forall|k: int| 0 <= k < pos implies !displaces(side, price, #[trigger] s[k]) by {
            if k > 0 {
                assert(tail[k - 1] == s[k]);
                assert(!displaces(side, price, tail[k - 1]));
            }
        }
        if pos < s.len() {
            assert(tail[pos - 1] == s[pos]);
        }
    }
}

/// The insertion position is the only index with nothing displaced before it
/// and a displaced entry (or the end) at it.
pub proof fn lemma_insert_pos_unique(side: Side, s: Seq<Order>, price: u64, i: int)
    requires
        0 <= i <= s.len(),
        forall|k: int| 0 <= k < i ==> !displaces(side, price, #[trigger] s[k]),
        i < s.len() ==> displaces(side, price, s[i]),
    ensures
        spec_insert_pos(side, s, price) == i,
    decreases s.len(),
{
    if s.len() == 0 {
    } else if displaces(side, price, s[0]) {
        assert(i == 0);
    } else {
        let tail = s.subrange(1, s.len() as int);
        assert(forall|k: int| 0 <= k < tail.len() ==> #[trigger] tail[k] == s[k + 1]);
        lemma_insert_pos_unique(side, tail, price, i - 1);
    }
}

/// Inserting the newest order at its computed position keeps the side sorted.
pub proof fn lemma_insert_sorted(side: Side, s: Seq<Order>, o: Order)
    requires
        sorted_side(side, s),
        forall|i: int| 0 <= i < s.len() ==> (#[trigger] s[i]).sequence < o.sequence,
    ensures
        sorted_side(side, s.insert(spec_insert_pos(side, s, o.price), o)),
{
    lemma_insert_pos_bounds(side, s, o.price);
    let pos = spec_insert_pos(side, s, o.price);
    let t = s.insert(pos, o);
    assert forall|x: int, y: int|
        0 <= x < y < t.len() implies lower_priority(side, #[trigger] t[x], #[trigger] t[y]) by {
        if y < pos {
            assert(t[x] == s[x] && t[y] == s[y]);
        } else if y == pos {
            assert(t[x] == s[x] && t[y] == o);
            assert(!displaces(side, o.price, s[x]));
        } else if x < pos {
            assert(t[x] == s[x] && t[y] == s[y - 1]);
            if y - 1 == x {
                assert(!displaces(side, o.price, s[x]));
                assert(displaces(side, o.price, s[x]) || x < pos);
            }
        } else if x == pos {
            assert(t[x] == o && t[y] == s[y - 1]);
            assert(displaces(side, o.price, s[pos]));
            if y - 1 > pos {
                assert(lower_priority(side, s[pos], s[y - 1]));
            }
        } else {
            assert(t[x] == s[x - 1] && t[y] == s[y - 1]);
        }
    }
}

/// Removing an entry keeps a side sorted.
pub proof fn lemma_sorted_remove(side: Side, s: Seq<Order>, i: int)
    requires
        sorted_side(side, s),
        0 <= i < s.len(),
    ensures
        sorted_side(side, s.remove(i)),
{
    let t = s.remove(i);
    assert forall|x: int, y: int|
        0 <= x < y < t.len() implies lower_priority(side, #[trigger] t[x], #[trigger] t[y]) by {
        if x < i && y < i {
            assert(t[x] == s[x] && t[y] == s[y]);
        } else if x < i {
            assert(t[x] == s[x] && t[y] == s[y + 1]);
        } else {
            assert(t[x] == s[x + 1] && t[y] == s[y + 1]);
        }
    }
}

/// Inserting an order with a fresh id keeps ids distinct.
pub proof fn lemma_distinct_insert(s: Seq<Order>, pos: int, o: Order)
    requires
        distinct_ids(s),
        0 <= pos <= s.len(),
        forall|i: int| 0 <= i < s.len() ==> (#[trigger] s[i]).id != o.id,
    ensures
        distinct_ids(s.insert(pos, o)),
{
    let t = s.insert(pos, o);
    assert forall|x: int, y: int|
        0 <= x < y < t.len() implies (#[trigger] t[x]).id != (#[trigger] t[y]).id by {
        if y < pos {
            assert(t[x] == s[x] && t[y] == s[y]);
        } else if y == pos {
            assert(t[x] == s[x] && t[y] == o);
        } else if x < pos {
            assert(t[x] == s[x] && t[y] == s[y - 1]);
        } else if x == pos {
            assert(t[x] == o && t[y] == s[y - 1]);
        } else {
            assert(t[x] == s[x - 1] && t[y] == s[y - 1]);
        }
    }
}

/// Removing an order keeps ids distinct.
pub proof fn lemma_distinct_remove(s: Seq<Order>, i: int)
    requires
        distinct_ids(s),
        0 <= i < s.len(),
    ensures
        distinct_ids(s.remove(i)),
{
    let t = s.remove(i);
    assert forall|x: int, y: int|
        0 <= x < y < t.len() implies (#[trigger] t[x]).id != (#[trigger] t[y]).id by {
        if x < i && y < i {
            assert(t[x] == s[x] && t[y] == s[y]);
        } else if x < i {
            assert(t[x] == s[x] && t[y] == s[y + 1]);
        } else {
            assert(t[x] == s[x + 1] && t[y] == s[y + 1]);
        }
    }
}

/// Orders with the same ids in the same places stay distinct.
pub proof fn lemma_distinct_same_ids(s: Seq<Order>, t: Seq<Order>)
    requires
        distinct_ids(s),
        t.len() == s.len(),
        forall|i: int| 0 <= i < t.len() ==> (#[trigger] t[i]).id == s[i].id,
    ensures
        distinct_ids(t),
{
}

/// Distinct ids over the whole book give distinct ids on each side.
pub proof fn lemma_distinct_each_side(bids: Seq<Order>, asks: Seq<Order>)
    requires
        distinct_ids(bids + asks),
    ensures
        distinct_ids(bids),
        distinct_ids(asks),
{
    let all = bids + asks;
    assert forall|x: int, y: int|
        0 <= x < y < bids.len() implies (#[trigger] bids[x]).id != (#[trigger] bids[y]).id by {
        assert(all[x] == bids[x] && all[y] == bids[y]);
    }
    assert forall|x: int, y: int|
        0 <= x < y < asks.len() implies (#[trigger] asks[x]).id != (#[trigger] asks[y]).id by {
        assert(all[bids.len() + x] == asks[x] && all[bids.len() + y] == asks[y]);
    }
}

/// Filling an entry keeps a side valid: ordering ignores quantities, and a
/// drained entry leaves.
pub proof fn lemma_reduce_side_ok(side: Side, s: Seq<Order>, i: int, fill: u64)
    requires
        side_ok(side, s),
        0 <= i < s.len(),
        0 < fill <= s[i].quantity,
    ensures
        side_ok(side, reduce_seq(s, i, fill)),
{
    if s[i].quantity == fill {
        lemma_sorted_remove(side, s, i);
    } else {
        let t = reduce_seq(s, i, fill);
        assert forall|x: int, y: int|
            0 <= x < y < t.len() implies lower_priority(side, #[trigger] t[x], #[trigger] t[y]) by {
            assert(lower_priority(side, s[x], s[y]));
        }
    }
}

/// If the concatenation of the two sides has distinct ids, an id that occurs
/// does so on exactly one side, at exactly one place.
pub proof fn lemma_locate_id(bids: Seq<Order>, asks: Seq<Order>, id: u64)
    requires
        distinct_ids(bids + asks),
        contains_id(bids + asks, id),
    ensures
        contains_id(bids, id) || contains_id(asks, id),
        contains_id(bids, id) ==> !contains_id(asks, id) && 0 <= idx_of_id(bids, id) < bids.len()
            && bids[idx_of_id(bids, id)].id == id && idx_of_id(bids + asks, id) == idx_of_id(
            bids,
            id,
        ),
        contains_id(asks, id) ==> !contains_id(bids, id) && 0 <= idx_of_id(asks, id) < asks.len()
            && asks[idx_of_id(asks, id)].id == id && idx_of_id(bids + asks, id) == bids.len()
            + idx_of_id(asks, id),
{
    let all = bids + asks;
    let k = idx_of_id(all, id);
    assert(0 <= k < all.len() && all[k].id == id);
    if k < bids.len() {
        assert(bids[k] == all[k]);
        assert(contains_id(bids, id));
        let k2 = idx_of_id(bids, id);
        assert(0 <= k2 < bids.len() && bids[k2].id == id);
        assert(all[k2] == bids[k2]);
        assert(k2 == k);
        assert forall|j: int| 0 <= j < asks.len() implies (#[trigger] asks[j]).id != id by {
            assert(all[bids.len() + j] == asks[j]);
        }
    } else {
        assert(asks[k - bids.len()] == all[k]);
        assert(contains_id(asks, id));
        let k2 = idx_of_id(asks, id);
        assert(0 <= k2 < asks.len() && asks[k2].id == id);
        assert(all[bids.len() + k2] == asks[k2]);
        assert(bids.len() + k2 == k);
        assert forall|j: int| 0 <= j < bids.len() implies (#[trigger] bids[j]).id != id by {
            assert(all[j] == bids[j]);
        }
    }
}

/// Copies a side, for scratch state during a tentative match walk.
fn copy_orders(v: &Vec<Order>) -> (r: Vec<Order>)
    ensures
        r@ == v@,
{
    let n = v.len();
    let mut out: Vec<Order> = Vec::new();
    let mut i: usize = 0;
    while i < n
        invariant
            n == v@.len(),
            i <= n,
            out@ =~= v@.take(i as int),
        decreases n - i,
    {
        out.push(v[i]);
        i = i + 1;
    }
    proof {
        assert(v@.take(n as int) =~= v@);
    }
    out
}

/// Finds the order with id `id` in one side.
fn find_in(v: &Vec<Order>, id: u64) -> (r: Option<usize>)
    requires
        distinct_ids(v@),
    ensures
        match r {
            Some(i) => contains_id(v@, id) && i < v@.len() && v@[i as int].id == id && idx_of_id(
                v@,
                id,
            ) == i,
            None => !contains_id(v@, id),
        },
{
    let n = v.len();
    let mut i: usize = 0;
    while i < n
        invariant
            distinct_ids(v@),
            n == v@.len(),
            i <= n,
            forall|k: int| 0 <= k < i ==> (#[trigger] v@[k]).id != id,
        decreases n - i,
    {
        if v[i].id == id {
            proof {
                assert(contains_id(v@, id));
                let j = idx_of_id(v@, id);
                assert(0 <= j < v@.len() && v@[j].id == id);
                assert(j == i);
            }
            return Some(i);
        }
        i = i + 1;
    }
    None
}

/// Inserts the newest order into one side at its price-time position.
fn insert_into_side(v: &mut Vec<Order>, side: Side, o: Order)
    requires
        side_ok(side, old(v)@),
        o.side == side,
        o.quantity > 0,
        forall|i: int| 0 <= i < old(v)@.len() ==> (#[trigger] old(v)@[i]).sequence < o.sequence,
    ensures
        final(v)@ == old(v)@.insert(spec_insert_pos(side, old(v)@, o.price), o),
        side_ok(side, final(v)@),
{
    let n = v.len();
    let mut i: usize = 0;
    loop
        invariant
            side_ok(side, v@),
            v@ == old(v)@,
            n == v@.len(),
            i <= n,
            forall|k: int| 0 <= k < i ==> !displaces(side, o.price, #[trigger] v@[k]),
        ensures
            v@ == old(v)@,
            i <= n,
            forall|k: int| 0 <= k < i ==> !displaces(side, o.price, #[trigger] v@[k]),
            i == n || displaces(side, o.price, v@[i as int]),
        decreases n - i,
    {
        if i >= n {
            break ;
        }
        let hit = match side {
            Side::Bid => v[i].price >= o.price,
            Side::Ask => v[i].price <= o.price,
        };
        if hit {
            break ;
        }
        i = i + 1;
    }
    proof {
        lemma_insert_pos_unique(side, v@, o.price, i as int);
        lemma_insert_sorted(side, v@, o);
    }
    v.insert(i, o);
}

/// Fills the order at index `i` of one side by `fill` units.
fn reduce_at(v: &mut Vec<Order>, i: usize, fill: u64)
    requires
        i < old(v)@.len(),
        0 < fill <= old(v)@[i as int].quantity,
    ensures
        final(v)@ == reduce_seq(old(v)@, i as int, fill),
{
    let o = v.remove(i);
    if o.quantity > fill {
        let reduced = Order {
            id: o.id,
            user_id: o.user_id,
            side: o.side,
            price: o.price,
            quantity: o.quantity - fill,
            sequence: o.sequence,
        };
        v.insert(i, reduced);
        proof {
            assert(v@ =~= old(v)@.update(i as int, reduced));
        }
    }
}

/// The order book. Its invariant: each side is sorted worst-to-best by
/// price-time priority, holds only live orders of its own side, and no two
/// resting orders anywhere share an id.
pub struct OrderBook {
    bids: Vec<Order>,
    asks: Vec<Order>,
}

impl View for OrderBook {
    type V = BookModel;

    closed spec fn view(&self) -> BookModel {
        BookModel { bids: self.bids@, asks: self.asks@ }
    }
}

impl OrderBook {
    /// The side of the book holding orders of side `side`.
    pub open spec fn side_seq(&self, side: Side) -> Seq<Order> {
        match side {
            Side::Bid => self@.bids,
            Side::Ask => self@.asks,
        }
    }

    /// Every resting order, bids first.
    pub open spec fn all_orders(&self) -> Seq<Order> {
        self@.bids + self@.asks
    }

    /// Book validity; every public operation preserves it.
    pub open spec fn wf(&self) -> bool {
        &&& side_ok(Side::Bid, self@.bids)
        &&& side_ok(Side::Ask, self@.asks)
        &&& distinct_ids(self.all_orders())
    }

    /// Whether an order with id `id` rests in the book.
    pub open spec fn has_order(&self, id: u64) -> bool {
        contains_id(self.all_orders(), id)
    }

    /// The resting order with id `id` (unique under validity).
    pub open spec fn resting(&self, id: u64) -> Order {
        self.all_orders()[idx_of_id(self.all_orders(), id)]
    }

    /// An empty book.
    pub fn new() -> (r: OrderBook)
        ensures
            r.wf(),
            r@.bids =~= Seq::<Order>::empty(),
            r@.asks =~= Seq::<Order>::empty(),
    {
        OrderBook { bids: Vec::new(), asks: Vec::new() }
    }

    /// Number of resting bids.
    pub fn bids_len(&self) -> (r: usize)
        ensures
            r == self@.bids.len(),
    {
        self.bids.len()
    }

    /// Number of resting asks.
    pub fn asks_len(&self) -> (r: usize)
        ensures
            r == self@.asks.len(),
    {
        self.asks.len()
    }

    /// A copy of the resting bids, worst to best.
    pub fn bid_orders(&self) -> (r: Vec<Order>)
        ensures
            r@ == self@.bids,
    {
        copy_orders(&self.bids)
    }

    /// A copy of the resting asks, worst to best.
    pub fn ask_orders(&self) -> (r: Vec<Order>)
        ensures
            r@ == self@.asks,
    {
        copy_orders(&self.asks)
    }

    /// An identical book, used as scratch state for a tentative match walk.
    pub fn duplicate(&self) -> (r: OrderBook)
        ensures
            r@ == self@,
    {
        OrderBook { bids: copy_orders(&self.bids), asks: copy_orders(&self.asks) }
    }

    /// The best resting order on the side opposite to `side`: the lowest ask
    /// for an incoming bid, the highest bid for an incoming ask; ties go to
    /// the earliest arrival. `None` when that side is empty.
    pub fn best_opposite(&self, side: Side) -> (r: Option<Order>)
        requires
            self.wf(),
        ensures
            match r {
                None => self.side_seq(side.spec_opposite()).len() == 0,
                Some(o) => {
                    let opp = self.side_seq(side.spec_opposite());
                    &&& opp.len() > 0
                    &&& o == opp.last()
                    &&& forall|i: int|
                        0 <= i < opp.len() - 1 ==> lower_priority(
                            side.spec_opposite(),
                            #[trigger] opp[i],
                            o,
                        )
                },
            },
    {
        let v: &Vec<Order> = match side {
            Side::Bid => &self.asks,
            Side::Ask => &self.bids,
        };
        if v.len() == 0 {
            None
        } else {
            Some(v[v.len() - 1])
        }
    }

    /// Inserts the unfilled remainder of an incoming order at its price-time
    /// position on its own side. The order must be live, carry a fresh id,
    /// and be the latest arrival.
    pub fn insert_remainder(&mut self, o: Order)
        requires
            old(self).wf(),
            o.quantity > 0,
            !old(self).has_order(o.id),
            forall|i: int|
                0 <= i < old(self).all_orders().len() ==> (#[trigger] old(self).all_orders()[
                    i
                ]).sequence < o.sequence,
        ensures
            final(self).wf(),
            final(self).side_seq(o.side) == old(self).side_seq(o.side).insert(
                spec_insert_pos(o.side, old(self).side_seq(o.side), o.price),
                o,
            ),
            final(self).side_seq(o.side.spec_opposite()) == old(self).side_seq(
                o.side.spec_opposite(),
            ),
    {
        proof {
            let all = self.all_orders();
            assert forall|i: int| 0 <= i < self@.bids.len() implies (#[trigger] self@.bids[
                i
            ]).sequence < o.sequence && self@.bids[i].id != o.id by {
                assert(all[i] == self@.bids[i]);
            }
            assert forall|i: int| 0 <= i < self@.asks.len() implies (#[trigger] self@.asks[
                i
            ]).sequence < o.sequence && self@.asks[i].id != o.id by {
                assert(all[self@.bids.len() + i] == self@.asks[i]);
            }
        }
        match o.side {
            Side::Bid => insert_into_side(&mut self.bids, Side::Bid, o),
            Side::Ask => insert_into_side(&mut self.asks, Side::Ask, o),
        }
        proof {
            let all0 = old(self).all_orders();
            let all1 = self.all_orders();
            let pos = spec_insert_pos(o.side, old(self).side_seq(o.side), o.price);
            lemma_insert_pos_bounds(o.side, old(self).side_seq(o.side), o.price);
            let cpos: int = if o.side == Side::Bid {
                pos
            } else {
                old(self)@.bids.len() + pos
            };
            assert(all1 =~= all0.insert(cpos, o));
            lemma_distinct_insert(all0, cpos, o);
        }
    }

    /// Fills the resting order carrying `order_id` by `fill` units: its
    /// quantity drops by `fill`, and it leaves the book when nothing of it
    /// remains. Everything else in the book is untouched.
    pub fn reduce_or_remove(&mut self, order_id: u64, fill: u64)
        requires
            old(self).wf(),
            old(self).has_order(order_id),
            0 < fill <= old(self).resting(order_id).quantity,
        ensures
            final(self).wf(),
            contains_id(old(self)@.bids, order_id) ==> final(self)@.bids == reduce_seq(
                old(self)@.bids,
                idx_of_id(old(self)@.bids, order_id),
                fill,
            ) && final(self)@.asks == old(self)@.asks,
            contains_id(old(self)@.asks, order_id) ==> final(self)@.asks == reduce_seq(
                old(self)@.asks,
                idx_of_id(old(self)@.asks, order_id),
                fill,
            ) && final(self)@.bids == old(self)@.bids,
    {
        proof {
            lemma_locate_id(self@.bids, self@.asks, order_id);
            lemma_distinct_each_side(self@.bids, self@.asks);
        }
        match find_in(&self.bids, order_id) {
            Some(i) => {
                proof {
                    assert(self.resting(order_id) == self@.bids[i as int]);
                    lemma_reduce_side_ok(Side::Bid, self@.bids, i as int, fill);
                }
                reduce_at(&mut self.bids, i, fill);
                proof {
                    let all0 = old(self).all_orders();
                    let all1 = self.all_orders();
                    if old(self)@.bids[i as int].quantity == fill {
                        assert(all1 =~= all0.remove(i as int));
                        lemma_distinct_remove(all0, i as int);
                    } else {
                        assert(all1.len() == all0.len());
                        assert forall|k: int|
                            0 <= k < all1.len() implies (#[trigger] all1[k]).id == all0[k].id by {
                            if k < self@.bids.len() {
                                assert(all1[k] == self@.bids[k] && all0[k] == old(self)@.bids[k]);
                            } else {
                                assert(all1[k] == self@.asks[k - self@.bids.len()]);
                                assert(all0[k] == old(self)@.asks[k - self@.bids.len()]);
                            }
                        }
                        lemma_distinct_same_ids(all0, all1);
                    }
                }
            },
            None => {
                let i = match find_in(&self.asks, order_id) {
                    Some(i) => i,
                    None => {
                        proof {
                            assert(false);
                        }
                        0
                    },
                };
                proof {
                    assert(self.resting(order_id) == self@.asks[i as int]);
                    lemma_reduce_side_ok(Side::Ask, self@.asks, i as int, fill);
                }
                reduce_at(&mut self.asks, i, fill);
                proof {
                    let all0 = old(self).all_orders();
                    let all1 = self.all_orders();
                    let ci = old(self)@.bids.len() + i;
                    if old(self)@.asks[i as int].quantity == fill {
                        assert(all1 =~= all0.remove(ci as int));
                        lemma_distinct_remove(all0, ci as int);
                    } else {
                        assert(all1.len() == all0.len());
                        assert forall|k: int|
                            0 <= k < all1.len() implies (#[trigger] all1[k]).id == all0[k].id by {
                            if k < self@.bids.len() {
                                assert(all1[k] == self@.bids[k] && all0[k] == old(self)@.bids[k]);
                            } else {
                                assert(all1[k] == self@.asks[k - self@.bids.len()]);
                                assert(all0[k] == old(self)@.asks[k - self@.bids.len()]);
                            }
                        }
                        lemma_distinct_same_ids(all0, all1);
                    }
                }
            },
        }
    }
}

} // verus!
