use vstd::prelude::*;
use crate::book::{key_precedes, order_of, precedes, sorted_by_priority, BookKey};
use crate::engine::{book_ok, order_ok, Exchange};
use crate::ledger::{key_of, keys_unique, Ledger};
use crate::models::{Order, OrderKind, OrderSide, OrderStatus};

verus! {

fn order_is_ok(o: &Order, i: usize) -> (r: bool)
    ensures
        r == order_ok(*o, i as int),
{
    let id_ok = match o.id {
        Some(id) => id as u128 == i as u128 + 1,
        None => false,
    };
    let qty_ok = match (o.kind, o.side) {
        (OrderKind::Market, OrderSide::Buy) => true,
        _ => o.qty_matched <= o.qty_requested && (o.qty_matched != o.qty_requested || o.status == OrderStatus::Filled),
    };
    id_ok && o.balance <= o.funds && qty_ok
}

/// Whether the key names an open limit order of `side` at its token and price.
fn key_is_ok(side: OrderSide, k: BookKey, orders: &Vec<Order>) -> (r: bool)
    ensures
        r == (1 <= k.id <= orders@.len() && {
            let o = order_of(orders@, k);
            &&& o.side == side
            &&& o.kind == OrderKind::Limit
            &&& o.quote_token == k.token
            &&& o.limit_price == k.price
            &&& o.qty_matched < o.qty_requested
            &&& (o.status == OrderStatus::Created || o.status == OrderStatus::Partial)
        }),
{
    let n: usize = orders.len();
    if k.id < 1 || k.id as u128 > n as u128 {
        return false;
    }
    let o = &orders[(k.id - 1) as usize];
    o.side == side && o.kind == OrderKind::Limit && o.quote_token == k.token && o.limit_price == k.price
        && o.qty_matched < o.qty_requested && (o.status == OrderStatus::Created || o.status == OrderStatus::Partial)
}

fn side_is_ok(side: OrderSide, keys: &Vec<BookKey>, orders: &Vec<Order>) -> (r: bool)
    ensures
        r == book_ok(side, keys@, orders@),
{
    let mut i: usize = 0;
    while i < keys.len()
        invariant
            i <= keys@.len(),
            forall|a: int, b: int| 0 <= a < b < i ==> #[trigger] precedes(side, keys@[a], keys@[b]),
            forall|a: int| 0 <= a < i ==> 1 <= #[trigger] keys@[a].id <= orders@.len(),
            forall|a: int| 0 <= a < i ==> {
                let o = #[trigger] order_of(orders@, keys@[a]);
                &&& o.side == side
                &&& o.kind == OrderKind::Limit
                &&& o.quote_token == keys@[a].token
                &&& o.limit_price == keys@[a].price
                &&& o.qty_matched < o.qty_requested
                &&& (o.status == OrderStatus::Created || o.status == OrderStatus::Partial)
            },
        decreases keys@.len() - i,
    {
        if !key_is_ok(side, keys[i], orders) {
            assert(!book_ok(side, keys@, orders@)) by {
                let x = keys@[i as int];
                assert(order_of(orders@, x) == order_of(orders@, keys@[i as int]));
            }
            return false;
        }
        if i > 0 {
            if !key_precedes(side, keys[i - 1], keys[i]) {
                assert(!sorted_by_priority(side, keys@)) by {
                    assert(!precedes(side, keys@[i - 1], keys@[i as int]));
                }
                return false;
            }
            assert forall|a: int, b: int| 0 <= a < b < i + 1 implies #[trigger] precedes(side, keys@[a], keys@[b]) by {
                if b == i && a < i - 1 {
                    assert(precedes(side, keys@[a], keys@[i - 1]));
                }
            }
        }
        i += 1;
    }
    true
}

impl Ledger {
    /// Whether no two entries share an account and a token.
    pub fn keys_are_unique(&self) -> (r: bool)
        ensures
            r == self.wf(),
    {
        let n = self.entries.len();
        let mut i: usize = 0;
        while i < n
            invariant
                n == self.entries@.len(),
                i <= n,
                forall|a: int, b: int| 0 <= a < b < n && a < i ==> key_of(#[trigger] self.entries@[a]) != key_of(#[trigger] self.entries@[b]),
            decreases n - i,
        {
            let mut j: usize = i + 1;
            while j < n
                invariant
                    n == self.entries@.len(),
                    i < n,
                    i + 1 <= j <= n,
                    forall|a: int, b: int| 0 <= a < b < n && a < i ==> key_of(#[trigger] self.entries@[a]) != key_of(#[trigger] self.entries@[b]),
                    forall|b: int| i < b < j ==> key_of(self.entries@[i as int]) != key_of(#[trigger] self.entries@[b]),
                decreases n - j,
            {
                let x = &self.entries[i];
                let y = &self.entries[j];
                if x.token == y.token && x.account == y.account {
                    assert(!keys_unique(self.entries@)) by {
                        assert(key_of(self.entries@[i as int]) == key_of(self.entries@[j as int]));
                    }
                    return false;
                }
                j += 1;
            }
            i += 1;
        }
        true
    }
}

impl Exchange {
    /// Whether the store is in good order; a store read back from outside
    /// should pass this before any other call.
    pub fn is_well_formed(&self) -> (r: bool)
        ensures
            r == self.wf(),
    {
        if self.orders.len() as u128 != self.order_id_seq as u128 {
            return false;
        }
        let mut i: usize = 0;
        while i < self.orders.len()
            invariant
                i <= self.orders@.len(),
                forall|a: int| 0 <= a < i ==> order_ok(#[trigger] self.orders@[a], a),
            decreases self.orders@.len() - i,
        {
            if !order_is_ok(&self.orders[i], i) {
                return false;
            }
            i += 1;
        }
        side_is_ok(OrderSide::Sell, &self.asks, &self.orders) && side_is_ok(OrderSide::Buy, &self.bids, &self.orders)
            && self.ledger.keys_are_unique()
    }
}

} // verus!
