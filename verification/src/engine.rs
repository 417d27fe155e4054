//! The matching engine: submission validation, the match walk over the
//! opposite side of the book, per-trade settlement on the ledger, and the
//! resting of any unfilled remainder.
//!
//! `spec_submit` is the mathematical model of one submission; `submit` is
//! proved to implement it exactly. A whole submission is all-or-nothing: any
//! rejection, including one discovered mid-walk, leaves book and ledger as
//! they were. The engine owns both structures, so one `&mut` submission is
//! one serialized critical section over the pair.

use vstd::prelude::*;

use crate::book::BookModel;
use crate::book::OrderBook;
use crate::book::contains_id;
use crate::book::idx_of_id;
use crate::book::lemma_distinct_each_side;
use crate::book::lemma_locate_id;
use crate::book::reduce_seq;
use crate::book::spec_insert_pos;
use crate::ledger::Account;
use crate::ledger::Ledger;
use crate::ledger::accounts_ok;
use crate::ledger::settle_checks;
use crate::ledger::settled_accounts;
use crate::ledger::spec_has_user;
use crate::ledger::sum_cash;
use crate::ledger::sum_stock;
use crate::order::EngineError;
use crate::order::Order;
use crate::order::Side;
use crate::order::crosses;
use crate::order::distinct_ids;
use crate::order::lower_priority;
use crate::order::side_ok;

verus! {

/// The abstract state of the whole engine: the two book sides (worst to best
/// priority), the ledger accounts, and the id and arrival counters.
pub struct EngineModel {
    pub bids: Seq<Order>,
    pub asks: Seq<Order>,
    pub accounts: Seq<Account>,
    pub next_id: u64,
    pub next_sequence: u64,
}

/// Every resting order, bids first.
pub open spec fn model_orders(m: EngineModel) -> Seq<Order> {
    m.bids + m.asks
}

/// The side of the model holding orders of side `side`.
pub open spec fn model_side(m: EngineModel, side: Side) -> Seq<Order> {
    match side {
        Side::Bid => m.bids,
        Side::Ask => m.asks,
    }
}

/// A resting order is accounted for: counters have moved past its id and
/// sequence, and its user is known to the ledger.
pub open spec fn order_admissible(m: EngineModel, o: Order) -> bool {
    &&& o.sequence < m.next_sequence
    &&& o.id < m.next_id
    &&& spec_has_user(m.accounts, o.user_id)
}

/// The book never rests a crossing pair: whenever both sides are non-empty,
/// the best bid is priced strictly below the best ask.
pub open spec fn non_crossing(m: EngineModel) -> bool {
    m.bids.len() > 0 && m.asks.len() > 0 ==> m.bids.last().price < m.asks.last().price
}

/// The engine invariant: both book sides valid and mutually non-crossing,
/// the ledger valid, and every resting order accounted for.
pub open spec fn model_inv(m: EngineModel) -> bool {
    &&& side_ok(Side::Bid, m.bids)
    &&& side_ok(Side::Ask, m.asks)
    &&& distinct_ids(model_orders(m))
    &&& accounts_ok(m.accounts)
    &&& forall|i: int|
        0 <= i < model_orders(m).len() ==> order_admissible(m, #[trigger] model_orders(m)[i])
    &&& non_crossing(m)
}

/// One step short of `a` in a match walk: same orders in the same places,
/// with only quantities possibly part-filled.
pub open spec fn same_core(a: Order, b: Order) -> bool {
    &&& a.id == b.id
    &&& a.user_id == b.user_id
    &&& a.side == b.side
    &&& a.price == b.price
    &&& a.sequence == b.sequence
    &&& a.quantity <= b.quantity
}

/// `cur` is what a match walk has left of `orig`: a prefix of its entries,
/// each possibly part-filled.
pub open spec fn walk_prefix(orig: Seq<Order>, cur: Seq<Order>) -> bool {
    &&& cur.len() <= orig.len()
    &&& forall|i: int| 0 <= i < cur.len() ==> same_core(#[trigger] cur[i], orig[i])
}

/// The match walk: while the opposite side's best order crosses the incoming
/// price and quantity remains, trade the two at the resting price, settle,
/// and fill the resting order. Returns the walked side, the accounts, and the
/// unfilled remainder — or the error of the settlement that failed.
pub open spec fn spec_walk(
    side: Side,
    opp: Seq<Order>,
    accs: Seq<Account>,
    taker: u64,
    price: u64,
    remaining: u64,
) -> Result<(Seq<Order>, Seq<Account>, u64), EngineError>
    decreases opp.len(), remaining,
{
    if remaining == 0 || opp.len() == 0 || !crosses(side, price, opp.last().price) {
        Ok((opp, accs, remaining))
    } else {
        let best = opp.last();
        let tq: u64 = if remaining < best.quantity {
            remaining
        } else {
            best.quantity
        };
        let buyer = if side == Side::Bid {
            taker
        } else {
            best.user_id
        };
        let seller = if side == Side::Bid {
            best.user_id
        } else {
            taker
        };
        match settle_checks(accs, buyer, seller, tq, best.price) {
            Result::Err(e) => Err(e),
            Result::Ok(_) => spec_walk(
                side,
                reduce_seq(opp, opp.len() - 1, tq),
                settled_accounts(accs, buyer, seller, tq, best.price),
                taker,
                price,
                (remaining - tq) as u64,
            ),
        }
    }
}

/// The model of one submission: validate, walk the opposite side, and rest
/// any remainder at its price-time position under the next id and sequence.
/// Returns the new state and the filled quantity, or the unchanged state and
/// the rejection.
pub open spec fn spec_submit(
    m: EngineModel,
    user_id: u64,
    side: Side,
    price: u64,
    quantity: u64,
) -> (EngineModel, Result<u64, EngineError>) {
    if price == 0 || quantity == 0 {
        (m, Err(EngineError::InvalidOrder))
    } else if !spec_has_user(m.accounts, user_id) {
        (m, Err(EngineError::UnknownUser))
    } else {
        match spec_walk(side, model_side(m, side.spec_opposite()), m.accounts, user_id, price, quantity) {
            Result::Err(_) => (m, Err(EngineError::InsufficientBalance)),
            Result::Ok((opp2, accs2, rem)) => {
                let bids2 = if side == Side::Bid {
                    m.bids
                } else {
                    opp2
                };
                let asks2 = if side == Side::Bid {
                    opp2
                } else {
                    m.asks
                };
                if rem == 0 {
                    (
                        EngineModel {
                            bids: bids2,
                            asks: asks2,
                            accounts: accs2,
                            next_id: m.next_id,
                            next_sequence: m.next_sequence,
                        },
                        Ok(quantity),
                    )
                } else {
                    let o = Order {
                        id: m.next_id,
                        user_id,
                        side,
                        price,
                        quantity: rem,
                        sequence: m.next_sequence,
                    };
                    let own = model_side(m, side);
                    let own2 = own.insert(spec_insert_pos(side, own, price), o);
                    (
                        EngineModel {
                            bids: if side == Side::Bid {
                                own2
                            } else {
                                bids2
                            },
                            asks: if side == Side::Bid {
                                asks2
                            } else {
                                own2
                            },
                            accounts: accs2,
                            next_id: (m.next_id + 1) as u64,
                            next_sequence: (m.next_sequence + 1) as u64,
                        },
                        Ok((quantity - rem) as u64),
                    )
                }
            },
        }
    }
}

/// If every account keeps its id, every user stays known.
proof fn lemma_has_user_transfer(a0: Seq<Account>, a1: Seq<Account>, u: u64)
    requires
        a1.len() == a0.len(),
        forall|i: int| 0 <= i < a1.len() ==> (#[trigger] a1[i]).id == a0[i].id,
        spec_has_user(a0, u),
    ensures
        spec_has_user(a1, u),
{
    let j = crate::ledger::idx_of_user(a0, u);
    assert(a0[j].id == u);
    assert(a1[j].id == u);
}

/// Every order a part-way match walk leaves in the book descends from a
/// resting order of the starting state, keeping id, sequence, and user.
proof fn lemma_walk_orders_admissible(m0: EngineModel, side: Side, b: BookModel)
    requires
        model_inv(m0),
        model_side_of(b, side) == model_side(m0, side),
        walk_prefix(model_side(m0, side.spec_opposite()), model_side_of(b, side.spec_opposite())),
    ensures
        forall|i: int|
            0 <= i < (b.bids + b.asks).len() ==> order_admissible(
                m0,
                #[trigger] (b.bids + b.asks)[i],
            ),
{
    let all1 = b.bids + b.asks;
    let all0 = model_orders(m0);
    let opp0 = model_side(m0, side.spec_opposite());
    let opp1 = model_side_of(b, side.spec_opposite());
    assert forall|i: int| 0 <= i < all1.len() implies order_admissible(m0, #[trigger] all1[i]) by {
        let bl = b.bids.len() as int;
        if i < bl {
            assert(all1[i] == b.bids[i]);
            if side == Side::Bid {
                assert(b.bids[i] == m0.bids[i]);
                assert(all0[i] == m0.bids[i]);
            } else {
                assert(same_core(opp1[i], opp0[i]));
                assert(all0[i] == m0.bids[i]);
                assert(order_admissible(m0, m0.bids[i]));
            }
        } else {
            assert(all1[i] == b.asks[i - bl]);
            if side == Side::Bid {
                assert(same_core(opp1[i - bl], opp0[i - bl]));
                assert(all0[m0.bids.len() + i - bl] == m0.asks[i - bl]);
                assert(order_admissible(m0, m0.asks[i - bl]));
            } else {
                assert(b.asks[i - bl] == m0.asks[i - bl]);
                assert(all0[m0.bids.len() + i - bl] == m0.asks[i - bl]);
            }
        }
    }
}

/// The side of a book model holding orders of side `side`.
pub open spec fn model_side_of(b: BookModel, side: Side) -> Seq<Order> {
    match side {
        Side::Bid => b.bids,
        Side::Ask => b.asks,
    }
}

/// After a fully filled submission the engine invariant holds again: the
/// walked side only lost priority-best entries, everything else is as it was.
proof fn lemma_full_fill_inv(m0: EngineModel, m1: EngineModel, side: Side)
    requires
        model_inv(m0),
        side_ok(Side::Bid, m1.bids),
        side_ok(Side::Ask, m1.asks),
        distinct_ids(model_orders(m1)),
        accounts_ok(m1.accounts),
        model_side(m1, side) == model_side(m0, side),
        walk_prefix(model_side(m0, side.spec_opposite()), model_side(m1, side.spec_opposite())),
        m1.accounts.len() == m0.accounts.len(),
        forall|i: int|
            0 <= i < m1.accounts.len() ==> (#[trigger] m1.accounts[i]).id == m0.accounts[i].id,
        m1.next_id == m0.next_id,
        m1.next_sequence == m0.next_sequence,
    ensures
        model_inv(m1),
{
    let b = BookModel { bids: m1.bids, asks: m1.asks };
    lemma_walk_orders_admissible(m0, side, b);
    assert forall|i: int|
        0 <= i < model_orders(m1).len() implies order_admissible(
        m1,
        #[trigger] model_orders(m1)[i],
    ) by {
        let o = model_orders(m1)[i];
        assert((b.bids + b.asks)[i] == o);
        assert(order_admissible(m0, o));
        lemma_has_user_transfer(m0.accounts, m1.accounts, o.user_id);
    }
    assert(non_crossing(m1)) by {
        if m1.bids.len() > 0 && m1.asks.len() > 0 {
            let opp0 = model_side(m0, side.spec_opposite());
            let opp1 = model_side(m1, side.spec_opposite());
            let l1 = opp1.len() as int;
            let l0 = opp0.len() as int;
            assert(same_core(opp1[l1 - 1], opp0[l1 - 1]));
            if side == Side::Bid {
                assert(m0.bids.len() > 0 && m0.asks.len() > 0);
                if l1 < l0 {
                    assert(lower_priority(Side::Ask, opp0[l1 - 1], opp0[l0 - 1]));
                }
                assert(opp1.last().price >= opp0.last().price);
            } else {
                assert(m0.bids.len() > 0 && m0.asks.len() > 0);
                if l1 < l0 {
                    assert(lower_priority(Side::Bid, opp0[l1 - 1], opp0[l0 - 1]));
                }
                assert(opp1.last().price <= opp0.last().price);
            }
        }
    }
}

/// After a remainder rests, the engine invariant holds again: the remainder
/// does not cross what is left of the opposite side, and it is stamped with
/// the counters the engine then moves past.
#[verifier::rlimit(100)]
#[verifier::spinoff_prover]
proof fn lemma_rest_inv(m0: EngineModel, m1: EngineModel, side: Side, o: Order, opp_end: Seq<
    Order,
>)
    requires
        model_inv(m0),
        side_ok(Side::Bid, m1.bids),
        side_ok(Side::Ask, m1.asks),
        distinct_ids(model_orders(m1)),
        accounts_ok(m1.accounts),
        walk_prefix(model_side(m0, side.spec_opposite()), opp_end),
        model_side(m1, side.spec_opposite()) == opp_end,
        model_side(m1, side) == model_side(m0, side).insert(
            spec_insert_pos(side, model_side(m0, side), o.price),
            o,
        ),
        o.side == side,
        o.id == m0.next_id,
        o.sequence == m0.next_sequence,
        o.quantity > 0,
        spec_has_user(m0.accounts, o.user_id),
        m0.next_id < u64::MAX,
        m0.next_sequence < u64::MAX,
        m1.next_id == m0.next_id + 1,
        m1.next_sequence == m0.next_sequence + 1,
        m1.accounts.len() == m0.accounts.len(),
        forall|i: int|
            0 <= i < m1.accounts.len() ==> (#[trigger] m1.accounts[i]).id == m0.accounts[i].id,
        opp_end.len() == 0 || !crosses(side, o.price, opp_end.last().price),
    ensures
        model_inv(m1),
{
    let own0 = model_side(m0, side);
    let own1 = model_side(m1, side);
    let opp0 = model_side(m0, side.spec_opposite());
    let pos = spec_insert_pos(side, own0, o.price);
    crate::book::lemma_insert_pos_bounds(side, own0, o.price);
    let b_pre = BookModel {
        bids: if side == Side::Bid {
            own0
        } else {
            opp_end
        },
        asks: if side == Side::Bid {
            opp_end
        } else {
            own0
        },
    };
    lemma_walk_orders_admissible(m0, side, b_pre);
    let all_pre = b_pre.bids + b_pre.asks;
    let all1 = model_orders(m1);
    let cpos: int = if side == Side::Bid {
        pos
    } else {
        opp_end.len() + pos
    };
    assert(all1 =~= all_pre.insert(cpos, o));
    assert forall|i: int|
        0 <= i < all1.len() implies order_admissible(m1, #[trigger] all1[i]) by {
        let w = all1[i];
        if i == cpos {
            assert(w == o);
            lemma_has_user_transfer(m0.accounts, m1.accounts, o.user_id);
        } else {
            if i < cpos {
                assert(w == all_pre[i]);
            } else {
                assert(w == all_pre[i - 1]);
            }
            assert(order_admissible(m0, w));
            lemma_has_user_transfer(m0.accounts, m1.accounts, w.user_id);
        }
    }
    assert(non_crossing(m1)) by {
        if m1.bids.len() > 0 && m1.asks.len() > 0 {
            let le = opp_end.len() as int;
            let l0 = opp0.len() as int;
            if le > 0 {
                assert(same_core(opp_end[le - 1], opp0[le - 1]));
                if le < l0 {
                    if side == Side::Bid {
                        assert(lower_priority(Side::Ask, opp0[le - 1], opp0[l0 - 1]));
                    } else {
                        assert(lower_priority(Side::Bid, opp0[le - 1], opp0[l0 - 1]));
                    }
                }
                assert(own1.last() == (if pos == own0.len() as int {
                    o
                } else {
                    own0.last()
                }));
                if pos < own0.len() {
                    assert(own0.len() > 0);
                    assert(m0.bids.len() > 0 && m0.asks.len() > 0);
                }
            }
        }
    }
}

/// The engine: the order book and the ledger behind one mutation point, plus
/// the counters that stamp resting orders.
pub struct MatchingEngine {
    book: OrderBook,
    ledger: Ledger,
    next_id: u64,
    next_sequence: u64,
}

impl View for MatchingEngine {
    type V = EngineModel;

    closed spec fn view(&self) -> EngineModel {
        EngineModel {
            bids: self.book@.bids,
            asks: self.book@.asks,
            accounts: self.ledger@,
            next_id: self.next_id,
            next_sequence: self.next_sequence,
        }
    }
}

impl MatchingEngine {
    /// Engine validity; every public operation preserves it.
    pub open spec fn wf(&self) -> bool {
        model_inv(self@)
    }

    /// An engine with no users and an empty book.
    pub fn new() -> (r: MatchingEngine)
        ensures
            r.wf(),
            r@.bids =~= Seq::<Order>::empty(),
            r@.asks =~= Seq::<Order>::empty(),
            r@.accounts =~= Seq::<Account>::empty(),
            r@.next_id == 0,
            r@.next_sequence == 0,
    {
        let e = MatchingEngine {
            book: OrderBook::new(),
            ledger: Ledger::new(),
            next_id: 0,
            next_sequence: 0,
        };
        proof {
            assert(model_orders(e@) =~= Seq::<Order>::empty());
        }
        e
    }

    /// Registers a user with starting balances; see `Ledger::add_user`. The
    /// book and the counters are untouched.
    pub fn add_user(&mut self, id: u64, stock: u64, cash: u64) -> (r: bool)
        requires
            old(self).wf(),
        ensures
            final(self).wf(),
            r == (!spec_has_user(old(self)@.accounts, id) && sum_stock(old(self)@.accounts) + stock
                <= u64::MAX && sum_cash(old(self)@.accounts) + cash <= u64::MAX),
            r ==> final(self)@ == (EngineModel {
                accounts: old(self)@.accounts.push(Account { id, stock, cash }),
                ..old(self)@
            }),
            !r ==> final(self)@ == old(self)@,
    {
        let r = self.ledger.add_user(id, stock, cash);
        proof {
            if r {
                let m0 = old(self)@;
                let m1 = self@;
                assert(model_orders(m1) == model_orders(m0));
                assert forall|i: int|
                    0 <= i < model_orders(m1).len() implies order_admissible(
                    m1,
                    #[trigger] model_orders(m1)[i],
                ) by {
                    let o = model_orders(m0)[i];
                    assert(order_admissible(m0, o));
                    let j = crate::ledger::idx_of_user(m0.accounts, o.user_id);
                    assert(m1.accounts[j].id == o.user_id);
                }
            }
        }
        r
    }

    /// Whether user `id` is known to the ledger.
    pub fn has_user(&self, id: u64) -> (r: bool)
        requires
            self.wf(),
        ensures
            r == spec_has_user(self@.accounts, id),
    {
        self.ledger.has_user(id)
    }

    /// The stock balance of user `id`, if known.
    pub fn stock_of(&self, id: u64) -> (r: Option<u64>)
        requires
            self.wf(),
        ensures
            match r {
                Some(v) => spec_has_user(self@.accounts, id) && v == self@.accounts[
                    crate::ledger::idx_of_user(self@.accounts, id)
                ].stock,
                None => !spec_has_user(self@.accounts, id),
            },
    {
        self.ledger.stock_of(id)
    }

    /// The cash balance of user `id`, if known.
    pub fn cash_of(&self, id: u64) -> (r: Option<u64>)
        requires
            self.wf(),
        ensures
            match r {
                Some(v) => spec_has_user(self@.accounts, id) && v == self@.accounts[
                    crate::ledger::idx_of_user(self@.accounts, id)
                ].cash,
                None => !spec_has_user(self@.accounts, id),
            },
    {
        self.ledger.cash_of(id)
    }

    /// A copy of every account, in ledger order.
    pub fn accounts_list(&self) -> (r: Vec<Account>)
        ensures
            r@ == self@.accounts,
    {
        self.ledger.accounts_list()
    }

    /// A copy of the resting bids, worst to best.
    pub fn bid_orders(&self) -> (r: Vec<Order>)
        ensures
            r@ == self@.bids,
    {
        self.book.bid_orders()
    }

    /// A copy of the resting asks, worst to best.
    pub fn ask_orders(&self) -> (r: Vec<Order>)
        ensures
            r@ == self@.asks,
    {
        self.book.ask_orders()
    }

    /// Submits one limit order for `user_id` and returns the quantity that
    /// traded. Invalid input and unknown users are rejected before any
    /// matching; the match walk trades against the opposite side's best
    /// orders at their resting prices, settling each trade on the ledger;
    /// any unfilled remainder rests on the book at its price-time position.
    /// The call implements `spec_submit` exactly: in particular it is
    /// all-or-nothing (every rejection, including a failed settlement found
    /// mid-walk, leaves the engine unchanged) and conserves both asset
    /// totals. The counter bounds leave room to stamp a resting remainder.
    pub fn submit(&mut self, user_id: u64, side: Side, price: u64, quantity: u64) -> (r: Result<
        u64,
        EngineError,
    >)
        requires
            old(self).wf(),
            old(self)@.next_id < u64::MAX,
            old(self)@.next_sequence < u64::MAX,
        ensures
            final(self).wf(),
            (final(self)@, r) == spec_submit(old(self)@, user_id, side, price, quantity),
            r is Err ==> final(self)@ == old(self)@,
            r is Ok ==> r->Ok_0 <= quantity,
            sum_stock(final(self)@.accounts) == sum_stock(old(self)@.accounts),
            sum_cash(final(self)@.accounts) == sum_cash(old(self)@.accounts),
    {
        if price == 0 || quantity == 0 {
            return Err(EngineError::InvalidOrder);
        }
        if !self.ledger.has_user(user_id) {
            return Err(EngineError::UnknownUser);
        }
        let ghost m0 = self@;
        let ghost opp0 = model_side(m0, side.spec_opposite());
        let ghost own0 = model_side(m0, side);
        let mut book2 = self.book.duplicate();
        let mut ledger2 = self.ledger.duplicate();
        let mut remaining: u64 = quantity;
        proof {
            assert(book2.wf());
            assert(ledger2.wf());
        }
        loop
            invariant
                self@ == m0,
                m0 == old(self)@,
                model_inv(m0),
                price > 0,
                quantity > 0,
                spec_has_user(m0.accounts, user_id),
                opp0 == model_side(m0, side.spec_opposite()),
                own0 == model_side(m0, side),
                book2.wf(),
                ledger2.wf(),
                remaining <= quantity,
                book2.side_seq(side) == own0,
                walk_prefix(opp0, book2.side_seq(side.spec_opposite())),
                ledger2@.len() == m0.accounts.len(),
                forall|i: int|
                    0 <= i < ledger2@.len() ==> (#[trigger] ledger2@[i]).id == m0.accounts[i].id,
                sum_stock(ledger2@) == sum_stock(m0.accounts),
                sum_cash(ledger2@) == sum_cash(m0.accounts),
                spec_walk(
                    side,
                    book2.side_seq(side.spec_opposite()),
                    ledger2@,
                    user_id,
                    price,
                    remaining,
                ) == spec_walk(side, opp0, m0.accounts, user_id, price, quantity),
            ensures
                remaining == 0 || book2.side_seq(side.spec_opposite()).len() == 0 || !crosses(
                    side,
                    price,
                    book2.side_seq(side.spec_opposite()).last().price,
                ),
            decreases book2.side_seq(side.spec_opposite()).len(), remaining,
        {
            if remaining == 0 {
                break ;
            }
            let bo = book2.best_opposite(side);
            if bo.is_none() {
                break ;
            }
            let best = bo.unwrap();
            let does_cross = match side {
                Side::Bid => best.price <= price,
                Side::Ask => best.price >= price,
            };
            if !does_cross {
                break ;
            }
            let tq = if remaining < best.quantity {
                remaining
            } else {
                best.quantity
            };
            let buyer = match side {
                Side::Bid => user_id,
                Side::Ask => best.user_id,
            };
            let seller = match side {
                Side::Bid => best.user_id,
                Side::Ask => user_id,
            };
            let ghost opp_pre = book2.side_seq(side.spec_opposite());
            let ghost accs_pre = ledger2@;
            proof {
                assert(best == opp_pre.last());
                assert(best.quantity > 0);
            }
            let settled = ledger2.settle(buyer, seller, tq, best.price);
            if settled.is_err() {
                proof {
                    assert(spec_walk(side, opp_pre, accs_pre, user_id, price, remaining)
                        == spec_walk(side, opp0, m0.accounts, user_id, price, quantity));
                    assert(spec_walk(side, opp_pre, accs_pre, user_id, price, remaining) is Err);
                }
                return Err(EngineError::InsufficientBalance);
            }
            proof {
                let bids2 = book2@.bids;
                let asks2 = book2@.asks;
                let ghost ln = opp_pre.len();
                assert(opp_pre[ln - 1].id == best.id);
                assert(contains_id(opp_pre, best.id));
                if side == Side::Bid {
                    assert((bids2 + asks2)[bids2.len() + ln - 1] == best);
                } else {
                    assert((bids2 + asks2)[ln - 1] == best);
                }
                assert(contains_id(bids2 + asks2, best.id));
                lemma_locate_id(bids2, asks2, best.id);
                lemma_distinct_each_side(bids2, asks2);
                if side == Side::Bid {
                    assert(contains_id(asks2, best.id));
                    let k = idx_of_id(asks2, best.id);
                    assert(asks2[k].id == best.id && asks2[ln - 1].id == best.id);
                    assert(k == ln - 1);
                    assert(book2.resting(best.id) == best);
                } else {
                    assert(contains_id(bids2, best.id));
                    let k = idx_of_id(bids2, best.id);
                    assert(bids2[k].id == best.id && bids2[ln - 1].id == best.id);
                    assert(k == ln - 1);
                    assert(book2.resting(best.id) == best);
                }
            }
            book2.reduce_or_remove(best.id, tq);
            proof {
                let opp_new = book2.side_seq(side.spec_opposite());
                let accs_new = ledger2@;
                let ln = opp_pre.len();
                assert(opp_new == reduce_seq(opp_pre, ln - 1, tq));
                assert(walk_prefix(opp0, opp_new)) by {
                    if opp_pre[ln - 1].quantity == tq {
                        assert forall|i: int| 0 <= i < opp_new.len() implies same_core(
                            #[trigger] opp_new[i],
                            opp0[i],
                        ) by {
                            assert(opp_new[i] == opp_pre[i]);
                        }
                    } else {
                        assert forall|i: int| 0 <= i < opp_new.len() implies same_core(
                            #[trigger] opp_new[i],
                            opp0[i],
                        ) by {
                            if i < ln - 1 {
                                assert(opp_new[i] == opp_pre[i]);
                            } else {
                                assert(same_core(opp_pre[i], opp0[i]));
                            }
                        }
                    }
                }
                assert(accs_new == settled_accounts(accs_pre, buyer, seller, tq, best.price));
                assert(settle_checks(accs_pre, buyer, seller, tq, best.price) is Ok);
                assert(spec_walk(side, opp_pre, accs_pre, user_id, price, remaining)
                    == spec_walk(side, opp_new, accs_new, user_id, price, (remaining - tq) as u64));
                assert forall|i: int|
                    0 <= i < accs_new.len() implies (#[trigger] accs_new[i]).id
                    == m0.accounts[i].id by {
                    assert(accs_new[i].id == accs_pre[i].id);
                }
            }
            remaining = remaining - tq;
        }
        let ghost opp_end = book2.side_seq(side.spec_opposite());
        let ghost accs_end = ledger2@;
        proof {
            assert(spec_walk(side, opp_end, accs_end, user_id, price, remaining) == Ok::<
                (Seq<Order>, Seq<Account>, u64),
                EngineError,
            >((opp_end, accs_end, remaining)));
            assert(spec_walk(side, opp0, m0.accounts, user_id, price, quantity) == Ok::<
                (Seq<Order>, Seq<Account>, u64),
                EngineError,
            >((opp_end, accs_end, remaining)));
            assert forall|u: u64|
                spec_has_user(m0.accounts, u) implies spec_has_user(accs_end, u) by {
                let j = crate::ledger::idx_of_user(m0.accounts, u);
                assert(m0.accounts[j].id == u);
                assert(accs_end[j].id == u);
            }
        }
        if remaining == 0 {
            self.book = book2;
            self.ledger = ledger2;
            proof {
                assert(model_side(self@, side) == own0);
                assert(model_side(self@, side.spec_opposite()) == opp_end);
                lemma_full_fill_inv(m0, self@, side);
                assert((self@, Ok::<u64, EngineError>(quantity)) == spec_submit(
                    m0,
                    user_id,
                    side,
                    price,
                    quantity,
                ));
            }
            return Ok(quantity);
        }
        let o = Order {
            id: self.next_id,
            user_id,
            side,
            price,
            quantity: remaining,
            sequence: self.next_sequence,
        };
        proof {
            lemma_walk_orders_admissible(m0, side, book2@);
            let all2 = book2.all_orders();
            assert forall|i: int| 0 <= i < all2.len() implies ((#[trigger] all2[i]).sequence
                < o.sequence && all2[i].id != o.id) by {
                assert(order_admissible(m0, all2[i]));
            }
            assert(!book2.has_order(o.id));
        }
        book2.insert_remainder(o);
        self.book = book2;
        self.ledger = ledger2;
        self.next_id = self.next_id + 1;
        self.next_sequence = self.next_sequence + 1;
        proof {
            assert(model_side(self@, side) == own0.insert(
                spec_insert_pos(side, own0, o.price),
                o,
            ));
            assert(model_side(self@, side.spec_opposite()) == opp_end);
            lemma_rest_inv(m0, self@, side, o, opp_end);
            assert((self@, Ok::<u64, EngineError>((quantity - remaining) as u64)) == spec_submit(
                m0,
                user_id,
                side,
                price,
                quantity,
            ));
        }
        Ok(quantity - remaining)
    }

    /// Whether the id and arrival counters still have room to stamp another
    /// resting order — `submit`'s only precondition beyond validity.
    pub fn ids_available(&self) -> (r: bool)
        ensures
            r == (self@.next_id < u64::MAX && self@.next_sequence < u64::MAX),
    {
        self.next_id < u64::MAX && self.next_sequence < u64::MAX
    }

    /// The number of users the ledger knows.
    pub fn users_len(&self) -> (r: usize)
        ensures
            r == self@.accounts.len(),
    {
        self.ledger.len()
    }

    /// The best resting order opposite an incoming order of side `side`.
    pub fn best_opposite(&self, side: Side) -> (r: Option<Order>)
        requires
            self.wf(),
        ensures
            match r {
                None => model_side(self@, side.spec_opposite()).len() == 0,
                Some(o) => {
                    let opp = model_side(self@, side.spec_opposite());
                    &&& opp.len() > 0
                    &&& o == opp.last()
                    &&& forall|i: int|
                        0 <= i < opp.len() - 1 ==> lower_priority(
                            side.spec_opposite(),
                            #[trigger] opp[i],
                            o,
                        )
                },
            },
    {
        self.book.best_opposite(side)
    }
}

/// The reply of the service's health probe.
#[allow(unused_variables)]
pub fn hello(name: &str, age: u8) -> (r: &'static str)
    ensures
        r@ == "OK"@,
{
    "OK"
}

/// The engine as the service boots it: an empty book, and two seeded users
/// who each start with 10 units of stock and 50,000 units of cash.
pub fn rocket() -> (r: MatchingEngine)
    ensures
        r.wf(),
        r@.bids =~= Seq::<Order>::empty(),
        r@.asks =~= Seq::<Order>::empty(),
        r@.accounts =~= seq![
            Account { id: 1, stock: 10, cash: 50000 },
            Account { id: 2, stock: 10, cash: 50000 },
        ],
        r@.next_id == 0,
        r@.next_sequence == 0,
{
    let mut e = MatchingEngine::new();
    let ghost a0 = e@.accounts;
    let added1 = e.add_user(1, 10, 50000);
    proof {
        assert(sum_stock(a0) == 0 && sum_cash(a0) == 0);
        assert(added1);
        assert(e@.accounts.drop_last() =~= a0);
        assert(sum_stock(e@.accounts) == 10 && sum_cash(e@.accounts) == 50000);
    }
    let added2 = e.add_user(2, 10, 50000);
    proof {
        assert(added2);
        assert(e@.accounts =~= seq![
            Account { id: 1, stock: 10, cash: 50000 },
            Account { id: 2, stock: 10, cash: 50000 },
        ]);
    }
    e
}

} // verus!

