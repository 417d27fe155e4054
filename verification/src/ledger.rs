//! The ledger: per-user balances of the traded asset and of cash, and the
//! all-or-nothing settlement of one trade.
//!
//! Balances are unsigned, so no balance can be negative; settlement rejects
//! any trade that would need one. The sum of each asset over all users is
//! conserved by every settlement.

use vstd::prelude::*;

use crate::order::EngineError;

verus! {

/// One user's balances: `stock` units of the traded asset and `cash` units
/// of the quote currency.
#[derive(Clone, Copy, PartialEq, Eq, Structural, Debug)]
pub struct Account {
    pub id: u64,
    pub stock: u64,
    pub cash: u64,
}

/// Total units of the traded asset held across all accounts.
pub open spec fn sum_stock(s: Seq<Account>) -> int
    decreases s.len(),
{
    if s.len() == 0 {
        0
    } else {
        sum_stock(s.drop_last()) + s.last().stock
    }
}

/// Total units of cash held across all accounts.
pub open spec fn sum_cash(s: Seq<Account>) -> int
    decreases s.len(),
{
    if s.len() == 0 {
        0
    } else {
        sum_cash(s.drop_last()) + s.last().cash
    }
}

/// No two accounts share a user id.
pub open spec fn distinct_user_ids(s: Seq<Account>) -> bool {
    forall|i: int, j: int| 0 <= i < j < s.len() ==> (#[trigger] s[i]).id != (#[trigger] s[j]).id
}

/// Ledger validity: ids are unique and each asset's total fits a `u64`, so
/// that moving value between two accounts can never overflow.
pub open spec fn accounts_ok(s: Seq<Account>) -> bool {
    &&& distinct_user_ids(s)
    &&& sum_stock(s) <= u64::MAX
    &&& sum_cash(s) <= u64::MAX
}

/// Some account carries user id `id`.
pub open spec fn spec_has_user(s: Seq<Account>, id: u64) -> bool {
    exists|i: int| 0 <= i < s.len() && (#[trigger] s[i]).id == id
}

/// The index of the account with user id `id` (unique when ids are distinct).
pub open spec fn idx_of_user(s: Seq<Account>, id: u64) -> int {
    choose|i: int| 0 <= i < s.len() && (#[trigger] s[i]).id == id
}

/// Which error, if any, stops a settlement: an unknown party, a seller short
/// of stock, or a buyer short of cash.
pub open spec fn settle_checks(
    s: Seq<Account>,
    buyer: u64,
    seller: u64,
    qty: u64,
    price: u64,
) -> Result<(), EngineError> {
    if !spec_has_user(s, buyer) {
        Err(EngineError::UnknownUser)
    } else if !spec_has_user(s, seller) {
        Err(EngineError::UnknownUser)
    } else if s[idx_of_user(s, seller)].stock < qty {
        Err(EngineError::InsufficientBalance)
    } else if (s[idx_of_user(s, buyer)].cash as int) < (qty as int) * (price as int) {
        Err(EngineError::InsufficientBalance)
    } else {
        Ok(())
    }
}

/// The accounts after a successful settlement: `qty` stock moves from seller
/// to buyer and `qty * price` cash moves from buyer to seller. A self-trade
/// moves nothing.
pub open spec fn settled_accounts(
    s: Seq<Account>,
    buyer: u64,
    seller: u64,
    qty: u64,
    price: u64,
) -> Seq<Account> {
    let bi = idx_of_user(s, buyer);
    let si = idx_of_user(s, seller);
    let cost = (qty as int) * (price as int);
    if bi == si {
        s
    } else {
        s.update(
            si,
            Account {
                id: s[si].id,
                stock: (s[si].stock - qty) as u64,
                cash: (s[si].cash + cost) as u64,
            },
        ).update(
            bi,
            Account {
                id: s[bi].id,
                stock: (s[bi].stock + qty) as u64,
                cash: (s[bi].cash - cost) as u64,
            },
        )
    }
}

/// Asset totals are never negative.
pub proof fn lemma_sum_nonneg(s: Seq<Account>)
    ensures
        sum_stock(s) >= 0,
        sum_cash(s) >= 0,
    decreases s.len(),
{
    if s.len() > 0 {
        lemma_sum_nonneg(s.drop_last());
    }
}

/// Replacing the account at index `i` shifts each total by the difference at
/// that index alone.
pub proof fn lemma_sum_update(s: Seq<Account>, i: int, a: Account)
    requires
        0 <= i < s.len(),
    ensures
        sum_stock(s.update(i, a)) == sum_stock(s) - s[i].stock + a.stock,
        sum_cash(s.update(i, a)) == sum_cash(s) - s[i].cash + a.cash,
    decreases s.len(),
{
    let t = s.update(i, a);
    if i == s.len() - 1 {
        assert(t.drop_last() =~= s.drop_last());
    } else {
        assert(t.drop_last() =~= s.drop_last().update(i, a));
        lemma_sum_update(s.drop_last(), i, a);
    }
}

/// Any single balance is at most its asset's total.
pub proof fn lemma_sum_le(s: Seq<Account>, i: int)
    requires
        0 <= i < s.len(),
    ensures
        s[i].stock <= sum_stock(s),
        s[i].cash <= sum_cash(s),
    decreases s.len(),
{
    lemma_sum_nonneg(s.drop_last());
    if i < s.len() - 1 {
        lemma_sum_le(s.drop_last(), i);
    }
}

/// Two distinct balances together are at most their asset's total.
pub proof fn lemma_sum_pair_le(s: Seq<Account>, i: int, j: int)
    requires
        0 <= i < s.len(),
        0 <= j < s.len(),
        i != j,
    ensures
        s[i].stock + s[j].stock <= sum_stock(s),
        s[i].cash + s[j].cash <= sum_cash(s),
    decreases s.len(),
{
    if j == s.len() - 1 {
        lemma_sum_le(s.drop_last(), i);
    } else if i == s.len() - 1 {
        lemma_sum_le(s.drop_last(), j);
    } else {
        lemma_sum_pair_le(s.drop_last(), i, j);
    }
}

/// Extending a prefix by one account adds that account's balances to the
/// prefix totals.
pub proof fn lemma_sum_take_succ(s: Seq<Account>, i: int)
    requires
        0 <= i < s.len(),
    ensures
        sum_stock(s.take(i + 1)) == sum_stock(s.take(i)) + s[i].stock,
        sum_cash(s.take(i + 1)) == sum_cash(s.take(i)) + s[i].cash,
{
    assert(s.take(i + 1).drop_last() =~= s.take(i));
    assert(s.take(i + 1).last() == s[i]);
}

/// A prefix total is at most the full total.
pub proof fn lemma_sum_take_le(s: Seq<Account>, i: int)
    requires
        0 <= i <= s.len(),
    ensures
        sum_stock(s.take(i)) <= sum_stock(s),
        sum_cash(s.take(i)) <= sum_cash(s),
    decreases s.len() - i,
{
    if i == s.len() {
        assert(s.take(i) =~= s);
    } else {
        lemma_sum_take_succ(s, i);
        lemma_sum_take_le(s, i + 1);
    }
}

/// A settlement keeps the set of users: same accounts in the same places,
/// each under its old id.
pub proof fn lemma_settled_ids(s: Seq<Account>, buyer: u64, seller: u64, qty: u64, price: u64)
    requires
        spec_has_user(s, buyer),
        spec_has_user(s, seller),
    ensures
        settled_accounts(s, buyer, seller, qty, price).len() == s.len(),
        forall|i: int|
            0 <= i < s.len() ==> (#[trigger] settled_accounts(s, buyer, seller, qty, price)[i]).id
                == s[i].id,
{
    let bi = idx_of_user(s, buyer);
    let si = idx_of_user(s, seller);
    assert(0 <= bi < s.len() && s[bi].id == buyer);
    assert(0 <= si < s.len() && s[si].id == seller);
    let t = settled_accounts(s, buyer, seller, qty, price);
    assert forall|i: int| 0 <= i < s.len() implies (#[trigger] t[i]).id == s[i].id by {
        if bi != si {
            if i == si {
                assert(t[i].id == s[si].id);
            } else if i == bi {
                assert(t[i].id == s[bi].id);
            }
        }
    }
}

/// Settlement conserves each asset's total and keeps the ledger valid: what
/// the seller gives up in stock the buyer gains, and what the buyer gives up
/// in cash the seller gains.
pub proof fn lemma_settled_conserves(
    s: Seq<Account>,
    buyer: u64,
    seller: u64,
    qty: u64,
    price: u64,
)
    requires
        accounts_ok(s),
        settle_checks(s, buyer, seller, qty, price) is Ok,
    ensures
        sum_stock(settled_accounts(s, buyer, seller, qty, price)) == sum_stock(s),
        sum_cash(settled_accounts(s, buyer, seller, qty, price)) == sum_cash(s),
        accounts_ok(settled_accounts(s, buyer, seller, qty, price)),
{
    let bi = idx_of_user(s, buyer);
    let si = idx_of_user(s, seller);
    let cost = (qty as int) * (price as int);
    let t = settled_accounts(s, buyer, seller, qty, price);
    assert(qty as int * price as int >= 0) by (nonlinear_arith);
    if bi != si {
        lemma_sum_pair_le(s, bi, si);
        let ns = Account {
            id: s[si].id,
            stock: (s[si].stock - qty) as u64,
            cash: (s[si].cash + cost) as u64,
        };
        let nb = Account {
            id: s[bi].id,
            stock: (s[bi].stock + qty) as u64,
            cash: (s[bi].cash - cost) as u64,
        };
        let s1 = s.update(si, ns);
        lemma_sum_update(s, si, ns);
        lemma_sum_update(s1, bi, nb);
        assert(s1[bi] == s[bi]);
        assert(t =~= s1.update(bi, nb));
        assert(distinct_user_ids(t)) by {
            lemma_settled_ids(s, buyer, seller, qty, price);
        }
    }
}

/// The ledger: one account per known user.
pub struct Ledger {
    accounts: Vec<Account>,
}

impl View for Ledger {
    type V = Seq<Account>;

    closed spec fn view(&self) -> Seq<Account> {
        self.accounts@
    }
}

impl Ledger {
    /// Ledger validity; every public operation preserves it.
    pub open spec fn wf(&self) -> bool {
        accounts_ok(self@)
    }

    /// An empty ledger: no users, no balances.
    pub fn new() -> (r: Ledger)
        ensures
            r.wf(),
            r@ =~= Seq::<Account>::empty(),
    {
        Ledger { accounts: Vec::new() }
    }

    /// Number of known users.
    pub fn len(&self) -> (r: usize)
        ensures
            r == self@.len(),
    {
        self.accounts.len()
    }

    /// The index of the account of user `id`, if the user is known.
    fn find(&self, id: u64) -> (r: Option<usize>)
        requires
            self.wf(),
        ensures
            match r {
                Some(i) => spec_has_user(self@, id) && i < self@.len() && self@[i as int].id == id
                    && idx_of_user(self@, id) == i,
                None => !spec_has_user(self@, id),
            },
    {
        let n = self.accounts.len();
        let mut i: usize = 0;
        while i < n
            invariant
                self.wf(),
                n == self@.len(),
                i <= n,
                forall|k: int| 0 <= k < i ==> (#[trigger] self@[k]).id != id,
            decreases n - i,
        {
            if self.accounts[i].id == id {
                proof {
                    assert(spec_has_user(self@, id));
                    let j = idx_of_user(self@, id);
                    assert(0 <= j < self@.len() && self@[j].id == id);
                    assert(j == i);
                }
                return Some(i);
            }
            i = i + 1;
        }
        None
    }

    /// Whether user `id` is known to the ledger.
    pub fn has_user(&self, id: u64) -> (r: bool)
        requires
            self.wf(),
        ensures
            r == spec_has_user(self@, id),
    {
        self.find(id).is_some()
    }

    /// The stock balance of user `id`, if known.
    pub fn stock_of(&self, id: u64) -> (r: Option<u64>)
        requires
            self.wf(),
        ensures
            match r {
                Some(v) => spec_has_user(self@, id) && v == self@[idx_of_user(self@, id)].stock,
                None => !spec_has_user(self@, id),
            },
    {
        match self.find(id) {
            Some(i) => Some(self.accounts[i].stock),
            None => None,
        }
    }

    /// The cash balance of user `id`, if known.
    pub fn cash_of(&self, id: u64) -> (r: Option<u64>)
        requires
            self.wf(),
        ensures
            match r {
                Some(v) => spec_has_user(self@, id) && v == self@[idx_of_user(self@, id)].cash,
                None => !spec_has_user(self@, id),
            },
    {
        match self.find(id) {
            Some(i) => Some(self.accounts[i].cash),
            None => None,
        }
    }

    /// A copy of every account, in ledger order.
    pub fn accounts_list(&self) -> (r: Vec<Account>)
        ensures
            r@ == self@,
    {
        let n = self.accounts.len();
        let mut out: Vec<Account> = Vec::new();
        let mut i: usize = 0;
        while i < n
            invariant
                n == self@.len(),
                i <= n,
                out@ =~= self@.take(i as int),
            decreases n - i,
        {
            out.push(self.accounts[i]);
            i = i + 1;
        }
        proof {
            assert(self@.take(n as int) =~= self@);
        }
        out
    }

    /// An identical ledger, used as scratch state for a tentative match walk.
    pub fn duplicate(&self) -> (r: Ledger)
        ensures
            r@ == self@,
    {
        Ledger { accounts: self.accounts_list() }
    }

    /// The total stock across all users.
    fn total_stock(&self) -> (r: u64)
        requires
            self.wf(),
        ensures
            r == sum_stock(self@),
    {
        let n = self.accounts.len();
        let mut acc: u64 = 0;
        let mut i: usize = 0;
        while i < n
            invariant
                self.wf(),
                n == self@.len(),
                i <= n,
                acc == sum_stock(self@.take(i as int)),
            decreases n - i,
        {
            proof {
                lemma_sum_take_succ(self@, i as int);
                lemma_sum_take_le(self@, i as int + 1);
            }
            acc = acc + self.accounts[i].stock;
            i = i + 1;
        }
        proof {
            assert(self@.take(n as int) =~= self@);
        }
        acc
    }

    /// The total cash across all users.
    fn total_cash(&self) -> (r: u64)
        requires
            self.wf(),
        ensures
            r == sum_cash(self@),
    {
        let n = self.accounts.len();
        let mut acc: u64 = 0;
        let mut i: usize = 0;
        while i < n
            invariant
                self.wf(),
                n == self@.len(),
                i <= n,
                acc == sum_cash(self@.take(i as int)),
            decreases n - i,
        {
            proof {
                lemma_sum_take_succ(self@, i as int);
                lemma_sum_take_le(self@, i as int + 1);
            }
            acc = acc + self.accounts[i].cash;
            i = i + 1;
        }
        proof {
            assert(self@.take(n as int) =~= self@);
        }
        acc
    }

    /// Registers a new user with starting balances. Returns `false`, changing
    /// nothing, if the id is already taken or a total would no longer fit.
    pub fn add_user(&mut self, id: u64, stock: u64, cash: u64) -> (r: bool)
        requires
            old(self).wf(),
        ensures
            final(self).wf(),
            r == (!spec_has_user(old(self)@, id) && sum_stock(old(self)@) + stock <= u64::MAX
                && sum_cash(old(self)@) + cash <= u64::MAX),
            r ==> final(self)@ == old(self)@.push(Account { id, stock, cash }),
            !r ==> final(self)@ == old(self)@,
    {
        if self.find(id).is_some() {
            return false;
        }
        let ts = self.total_stock();
        let tc = self.total_cash();
        proof {
            lemma_sum_nonneg(self@);
        }
        if stock > u64::MAX - ts || cash > u64::MAX - tc {
            return false;
        }
        let a = Account { id, stock, cash };
        self.accounts.push(a);
        proof {
            let s = old(self)@;
            assert(self@.drop_last() =~= s);
            assert(self@.last() == a);
            assert(sum_stock(self@) == sum_stock(s) + stock);
            assert(sum_cash(self@) == sum_cash(s) + cash);
            assert(distinct_user_ids(self@)) by {
                assert(forall|k: int| 0 <= k < s.len() ==> (#[trigger] self@[k]) == s[k]);
            }
        }
        true
    }

    /// Replaces the account at index `i`.
    fn set_account(&mut self, i: usize, a: Account)
        requires
            i < old(self)@.len(),
        ensures
            final(self)@ == old(self)@.update(i as int, a),
    {
        self.accounts.remove(i);
        self.accounts.insert(i, a);
        proof {
            assert(self@ =~= old(self)@.update(i as int, a));
        }
    }

    /// Settles one trade all-or-nothing: `qty` stock moves from `seller_id`
    /// to `buyer_id` and `qty * price` cash moves back. Fails, changing
    /// nothing, if a party is unknown or a balance would go negative; a
    /// self-trade checks both balances and then moves nothing.
    pub fn settle(&mut self, buyer_id: u64, seller_id: u64, qty: u64, price: u64) -> (r: Result<
        (),
        EngineError,
    >)
        requires
            old(self).wf(),
        ensures
            final(self).wf(),
            r is Ok <==> settle_checks(old(self)@, buyer_id, seller_id, qty, price) is Ok,
            r is Ok ==> final(self)@ == settled_accounts(
                old(self)@,
                buyer_id,
                seller_id,
                qty,
                price,
            ),
            r is Err ==> final(self)@ == old(self)@ && r == settle_checks(
                old(self)@,
                buyer_id,
                seller_id,
                qty,
                price,
            ),
            sum_stock(final(self)@) == sum_stock(old(self)@),
            sum_cash(final(self)@) == sum_cash(old(self)@),
            final(self)@.len() == old(self)@.len(),
            forall|i: int|
                0 <= i < old(self)@.len() ==> (#[trigger] final(self)@[i]).id == old(self)@[i].id,
    {
        let bi = match self.find(buyer_id) {
            Some(i) => i,
            None => {
                return Err(EngineError::UnknownUser);
            },
        };
        let si = match self.find(seller_id) {
            Some(i) => i,
            None => {
                return Err(EngineError::UnknownUser);
            },
        };
        let buyer_acc = self.accounts[bi];
        let seller_acc = self.accounts[si];
        if seller_acc.stock < qty {
            return Err(EngineError::InsufficientBalance);
        }
        proof {
            assert((qty as int) * (price as int) <= (u64::MAX as int) * (u64::MAX as int))
                by (nonlinear_arith)
                requires
                    qty <= u64::MAX,
                    price <= u64::MAX,
            ;
        }
        let cost128: u128 = (qty as u128) * (price as u128);
        if (buyer_acc.cash as u128) < cost128 {
            return Err(EngineError::InsufficientBalance);
        }
        let cost: u64 = cost128 as u64;
        proof {
            lemma_settled_conserves(self@, buyer_id, seller_id, qty, price);
            lemma_settled_ids(self@, buyer_id, seller_id, qty, price);
        }
        if bi == si {
            return Ok(());
        }
        proof {
            lemma_sum_pair_le(self@, bi as int, si as int);
        }
        let new_seller = Account {
            id: seller_acc.id,
            stock: seller_acc.stock - qty,
            cash: seller_acc.cash + cost,
        };
        let new_buyer = Account {
            id: buyer_acc.id,
            stock: buyer_acc.stock + qty,
            cash: buyer_acc.cash - cost,
        };
        self.set_account(si, new_seller);
        self.set_account(bi, new_buyer);
        proof {
            assert(self@ == settled_accounts(old(self)@, buyer_id, seller_id, qty, price));
        }
        Ok(())
    }
}

} // verus!
