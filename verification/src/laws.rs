//! The engine's laws, proved of the submission model `spec_submit` (and so,
//! through `MatchingEngine::submit`'s exact contract, of the running engine):
//! conservation of value, non-negative balances, price and time priority,
//! behaviour against an empty side, and rejection without trace.

use vstd::prelude::*;

use crate::engine::EngineModel;
use crate::engine::model_inv;
use crate::engine::model_side;
use crate::engine::same_core;
use crate::engine::spec_submit;
use crate::engine::spec_walk;
use crate::engine::walk_prefix;
use crate::ledger::Account;
use crate::ledger::accounts_ok;
use crate::ledger::lemma_settled_conserves;
use crate::ledger::settle_checks;
use crate::ledger::settled_accounts;
use crate::ledger::spec_has_user;
use crate::ledger::sum_cash;
use crate::ledger::sum_stock;
use crate::order::EngineError;
use crate::order::Order;
use crate::order::Side;
use crate::order::crosses;
use crate::order::lower_priority;
use crate::order::price_no_worse;
use crate::book::reduce_seq;
use crate::book::spec_insert_pos;

verus! {

/// Every settlement of a match walk conserves each asset's total and keeps
/// the ledger valid.
pub proof fn lemma_walk_conserves(
    side: Side,
    opp: Seq<Order>,
    accs: Seq<Account>,
    taker: u64,
    price: u64,
    remaining: u64,
)
    requires
        accounts_ok(accs),
    ensures
        (spec_walk(side, opp, accs, taker, price, remaining) matches Ok((opp2, accs2, rem)) ==> {
            &&& sum_stock(accs2) == sum_stock(accs)
            &&& sum_cash(accs2) == sum_cash(accs)
            &&& accounts_ok(accs2)
        }),
    decreases opp.len(), remaining,
{
    if remaining == 0 || opp.len() == 0 || !crosses(side, price, opp.last().price) {
    } else {
        let best = opp.last();
        let tq: u64 = if remaining < best.quantity {
            remaining
        } else {
            best.quantity
        };
        let buyer = if side == Side::Bid {
            taker
        } else {
            best.user_id
        };
        let seller = if side == Side::Bid {
            best.user_id
        } else {
            taker
        };
        if settle_checks(accs, buyer, seller, tq, best.price) is Ok {
            lemma_settled_conserves(accs, buyer, seller, tq, best.price);
            lemma_walk_conserves(
                side,
                reduce_seq(opp, opp.len() - 1, tq),
                settled_accounts(accs, buyer, seller, tq, best.price),
                taker,
                price,
                (remaining - tq) as u64,
            );
        }
    }
}

/// Conservation: a submission never creates or destroys value. Whatever the
/// outcome, the total of the traded asset and the total of cash across all
/// users are both exactly what they were.
pub proof fn lemma_conservation(
    m: EngineModel,
    user_id: u64,
    side: Side,
    price: u64,
    quantity: u64,
)
    requires
        model_inv(m),
    ensures
        sum_stock(spec_submit(m, user_id, side, price, quantity).0.accounts) == sum_stock(
            m.accounts,
        ),
        sum_cash(spec_submit(m, user_id, side, price, quantity).0.accounts) == sum_cash(
            m.accounts,
        ),
{
    lemma_walk_conserves(
        side,
        model_side(m, side.spec_opposite()),
        m.accounts,
        user_id,
        price,
        quantity,
    );
}

/// No negative balances: balances are unsigned integers, and `settle_checks`
/// rejects any trade that would need more stock or cash than a party holds,
/// so every account of every reachable state is at or above zero.
pub proof fn lemma_no_negative_balances(m: EngineModel)
    ensures
        forall|i: int|
            0 <= i < m.accounts.len() ==> (#[trigger] m.accounts[i]).stock >= 0
                && m.accounts[i].cash >= 0,
{
}

/// A match walk only consumes from the matching end of the opposite side:
/// what it leaves is a prefix of what it found, part-filled at most.
pub proof fn lemma_walk_is_prefix(
    side: Side,
    opp: Seq<Order>,
    accs: Seq<Account>,
    taker: u64,
    price: u64,
    remaining: u64,
)
    ensures
        (spec_walk(side, opp, accs, taker, price, remaining) matches Ok((opp2, accs2, rem))
            ==> walk_prefix(opp, opp2)),
    decreases opp.len(), remaining,
{
    if remaining == 0 || opp.len() == 0 || !crosses(side, price, opp.last().price) {
    } else {
        let best = opp.last();
        let tq: u64 = if remaining < best.quantity {
            remaining
        } else {
            best.quantity
        };
        let buyer = if side == Side::Bid {
            taker
        } else {
            best.user_id
        };
        let seller = if side == Side::Bid {
            best.user_id
        } else {
            taker
        };
        if settle_checks(accs, buyer, seller, tq, best.price) is Ok {
            let mid = reduce_seq(opp, opp.len() - 1, tq);
            lemma_walk_is_prefix(
                side,
                mid,
                settled_accounts(accs, buyer, seller, tq, best.price),
                taker,
                price,
                (remaining - tq) as u64,
            );
            assert(walk_prefix(opp, mid)) by {
                if opp.last().quantity == tq {
                    assert forall|i: int| 0 <= i < mid.len() implies same_core(
                        #[trigger] mid[i],
                        opp[i],
                    ) by {
                        assert(mid[i] == opp[i]);
                    }
                } else {
                    assert forall|i: int| 0 <= i < mid.len() implies same_core(
                        #[trigger] mid[i],
                        opp[i],
                    ) by {
                        if i < opp.len() - 1 {
                            assert(mid[i] == opp[i]);
                        }
                    }
                }
            }
            match spec_walk(side, opp, accs, taker, price, remaining) {
                Result::Ok((opp2, _, _)) => {
                    assert(walk_prefix(mid, opp2));
                    assert forall|i: int| 0 <= i < opp2.len() implies same_core(
                        #[trigger] opp2[i],
                        opp[i],
                    ) by {
                        assert(same_core(opp2[i], mid[i]));
                        assert(same_core(mid[i], opp[i]));
                    }
                },
                Result::Err(_) => {},
            }
        }
    }
}

/// Price priority: when an incoming order crosses the opposite side at all,
/// the opposite side's best order — the one the walk trades against first —
/// crosses too, and no other resting order there is priced better (lower for
/// a crossed ask side, higher for a crossed bid side); and every order the
/// walk fully removes is priced no worse than every order it leaves resting.
pub proof fn lemma_price_priority(
    m: EngineModel,
    user_id: u64,
    side: Side,
    price: u64,
    quantity: u64,
)
    requires
        model_inv(m),
        exists|i: int|
            0 <= i < model_side(m, side.spec_opposite()).len() && crosses(
                side,
                price,
                (#[trigger] model_side(m, side.spec_opposite())[i]).price,
            ),
    ensures
        model_side(m, side.spec_opposite()).len() > 0,
        crosses(side, price, model_side(m, side.spec_opposite()).last().price),
        forall|i: int|
            0 <= i < model_side(m, side.spec_opposite()).len() ==> price_no_worse(
                side.spec_opposite(),
                model_side(m, side.spec_opposite()).last().price,
                (#[trigger] model_side(m, side.spec_opposite())[i]).price,
            ),
        (spec_walk(side, model_side(m, side.spec_opposite()), m.accounts, user_id, price, quantity)
            matches Ok((opp2, accs2, rem)) ==> {
            let opp = model_side(m, side.spec_opposite());
            &&& opp2.len() <= opp.len()
            &&& forall|i: int, j: int|
                0 <= i < opp2.len() && opp2.len() <= j < opp.len() ==> price_no_worse(
                    side.spec_opposite(),
                    (#[trigger] opp[j]).price,
                    (#[trigger] opp[i]).price,
                )
        }),
{
    let opp = model_side(m, side.spec_opposite());
    let w = choose|i: int|
        0 <= i < opp.len() && crosses(side, price, (#[trigger] opp[i]).price);
    assert forall|i: int| 0 <= i < opp.len() implies price_no_worse(
        side.spec_opposite(),
        opp.last().price,
        (#[trigger] opp[i]).price,
    ) by {
        if i < opp.len() - 1 {
            assert(lower_priority(side.spec_opposite(), opp[i], opp.last()));
        }
    }
    assert(price_no_worse(side.spec_opposite(), opp.last().price, opp[w].price));
    lemma_walk_is_prefix(side, opp, m.accounts, user_id, price, quantity);
    match spec_walk(side, opp, m.accounts, user_id, price, quantity) {
        Result::Ok((opp2, _, _)) => {
            assert forall|i: int, j: int|
                0 <= i < opp2.len() && opp2.len() <= j < opp.len() implies price_no_worse(
                side.spec_opposite(),
                (#[trigger] opp[j]).price,
                (#[trigger] opp[i]).price,
            ) by {
                assert(lower_priority(side.spec_opposite(), opp[i], opp[j]));
            }
        },
        Result::Err(_) => {},
    }
}

/// Time priority at equal price: of two resting orders at one price on one
/// side of the book, the one that arrived earlier (lower sequence) stands
/// nearer the matching end; and since a walk consumes only from that end,
/// whenever it fully removes one of the two and leaves the other, the
/// removed one arrived earlier.
pub proof fn lemma_time_priority(
    m: EngineModel,
    user_id: u64,
    side: Side,
    price: u64,
    quantity: u64,
    i: int,
    j: int,
)
    requires
        model_inv(m),
        0 <= i < j < model_side(m, side.spec_opposite()).len(),
        model_side(m, side.spec_opposite())[i].price == model_side(m, side.spec_opposite())[
            j
        ].price,
    ensures
        model_side(m, side.spec_opposite())[i].sequence > model_side(m, side.spec_opposite())[
            j
        ].sequence,
        (spec_walk(side, model_side(m, side.spec_opposite()), m.accounts, user_id, price, quantity)
            matches Ok((opp2, accs2, rem)) ==> (i < opp2.len() && opp2.len() <= j ==> model_side(
            m,
            side.spec_opposite(),
        )[j].sequence < model_side(m, side.spec_opposite())[i].sequence)),
{
    let opp = model_side(m, side.spec_opposite());
    assert(lower_priority(side.spec_opposite(), opp[i], opp[j]));
}

/// Rejection leaves no trace: a submission that returns any error leaves the
/// whole engine state exactly as it was.
pub proof fn lemma_rejection_no_trace(
    m: EngineModel,
    user_id: u64,
    side: Side,
    price: u64,
    quantity: u64,
)
    ensures
        (spec_submit(m, user_id, side, price, quantity).1 is Err ==> spec_submit(
            m,
            user_id,
            side,
            price,
            quantity,
        ).0 == m),
{
}

/// Against an empty opposite side a valid submission never settles anything:
/// it reports a filled quantity of zero, leaves every balance as it was, and
/// rests the full incoming order on its own side.
pub proof fn lemma_empty_opposite_rests_full(
    m: EngineModel,
    user_id: u64,
    side: Side,
    price: u64,
    quantity: u64,
)
    requires
        model_inv(m),
        model_side(m, side.spec_opposite()).len() == 0,
        price > 0,
        quantity > 0,
        spec_has_user(m.accounts, user_id),
    ensures
        spec_submit(m, user_id, side, price, quantity).1 == Ok::<u64, EngineError>(0),
        spec_submit(m, user_id, side, price, quantity).0.accounts == m.accounts,
        model_side(spec_submit(m, user_id, side, price, quantity).0, side.spec_opposite()).len()
            == 0,
        model_side(spec_submit(m, user_id, side, price, quantity).0, side) == model_side(
            m,
            side,
        ).insert(
            spec_insert_pos(side, model_side(m, side), price),
            Order {
                id: m.next_id,
                user_id,
                side,
                price,
                quantity,
                sequence: m.next_sequence,
            },
        ),
{
    let opp = model_side(m, side.spec_opposite());
    assert(spec_walk(side, opp, m.accounts, user_id, price, quantity) == Ok::<
        (Seq<Order>, Seq<Account>, u64),
        EngineError,
    >((opp, m.accounts, quantity)));
}

} // verus!
