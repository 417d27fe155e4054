//! Order and side types, and the price-time priority order on resting orders.

use vstd::prelude::*;

verus! {

/// Whether an order buys (`Bid`) or sells (`Ask`) the traded asset.
#[derive(Clone, Copy, PartialEq, Eq, Structural, Debug)]
pub enum Side {
    Bid,
    Ask,
}

impl Side {
    /// The side of the book an incoming order of this side matches against.
    pub open spec fn spec_opposite(self) -> Side {
        match self {
            Side::Bid => Side::Ask,
            Side::Ask => Side::Bid,
        }
    }

    /// Returns the opposite side.
    pub fn opposite(self) -> (r: Side)
        ensures
            r == self.spec_opposite(),
    {
        match self {
            Side::Bid => Side::Ask,
            Side::Ask => Side::Bid,
        }
    }
}

/// A limit order. `price` is in integral ticks and `quantity` in whole units;
/// `sequence` is the arrival counter used for time priority, and `id` is the
/// stable identity of a resting order.
#[derive(Clone, Copy, PartialEq, Eq, Structural, Debug)]
pub struct Order {
    pub id: u64,
    pub user_id: u64,
    pub side: Side,
    pub price: u64,
    pub quantity: u64,
    pub sequence: u64,
}

/// Why a submission was rejected. Any rejection leaves the engine unchanged.
#[derive(Clone, Copy, PartialEq, Eq, Structural, Debug)]
pub enum EngineError {
    /// The incoming order had a zero price or a zero quantity.
    InvalidOrder,
    /// An order referenced a user the ledger does not know.
    UnknownUser,
    /// A settlement would have driven some balance negative.
    InsufficientBalance,
}

/// A resting order priced at `resting_price` can trade against an incoming
/// order of side `side` priced at `incoming_price`.
pub open spec fn crosses(side: Side, incoming_price: u64, resting_price: u64) -> bool {
    match side {
        Side::Bid => resting_price <= incoming_price,
        Side::Ask => resting_price >= incoming_price,
    }
}

/// For two orders resting on side `side`, price `a` serves the taker at
/// least as well as price `b`: no higher among asks, no lower among bids.
pub open spec fn price_no_worse(side: Side, a: u64, b: u64) -> bool {
    match side {
        Side::Bid => a >= b,
        Side::Ask => a <= b,
    }
}

/// `a` has strictly worse price-time priority than `b` on side `side`:
/// a worse price, or an equal price and a later arrival.
pub open spec fn lower_priority(side: Side, a: Order, b: Order) -> bool {
    ||| match side {
        Side::Bid => a.price < b.price,
        Side::Ask => a.price > b.price,
    }
    ||| (a.price == b.price && a.sequence > b.sequence)
}

/// One side of the book is kept sorted from worst to best priority, so the
/// order to match next always stands at the end.
pub open spec fn sorted_side(side: Side, s: Seq<Order>) -> bool {
    forall|i: int, j: int|
        0 <= i < j < s.len() ==> lower_priority(side, #[trigger] s[i], #[trigger] s[j])
}

/// Every entry of `s` belongs to side `side` and is still live (quantity > 0),
/// and the whole sequence is in priority order.
pub open spec fn side_ok(side: Side, s: Seq<Order>) -> bool {
    &&& sorted_side(side, s)
    &&& forall|i: int| 0 <= i < s.len() ==> (#[trigger] s[i]).side == side && s[i].quantity > 0
}

/// No two orders of `s` share an id.
pub open spec fn distinct_ids(s: Seq<Order>) -> bool {
    forall|i: int, j: int| 0 <= i < j < s.len() ==> (#[trigger] s[i]).id != (#[trigger] s[j]).id
}

} // verus!
