use vstd::prelude::*;
use crate::models::{Order, OrderSide, OrderStatus};

verus! {

/// An entry of the order book: a resting order, keyed by the quote token it
/// trades against, its limit price and its id.
#[derive(Clone, Copy, Debug, PartialEq, Eq, Structural)]
pub struct BookKey {
    pub token: u32,
    pub price: u128,
    pub id: u64,
}

/// The priority order of one side of the book. Asks: lower price first.
/// Bids: higher price first. Within a price level: lower id (earlier
/// submission) first. Keys of different tokens are grouped by token.
pub open spec fn precedes(side: OrderSide, a: BookKey, b: BookKey) -> bool {
    if a.token != b.token {
        a.token < b.token
    } else if a.price != b.price {
        if side == OrderSide::Sell { a.price < b.price } else { a.price > b.price }
    } else {
        a.id < b.id
    }
}

pub open spec fn sorted_by_priority(side: OrderSide, s: Seq<BookKey>) -> bool {
    forall|i: int, j: int| 0 <= i < j < s.len() ==> #[trigger] precedes(side, s[i], s[j])
}

pub fn key_precedes(side: OrderSide, a: BookKey, b: BookKey) -> (r: bool)
    ensures
        r == precedes(side, a, b),
{
    if a.token != b.token {
        a.token < b.token
    } else if a.price != b.price {
        match side {
            OrderSide::Sell => a.price < b.price,
            OrderSide::Buy => a.price > b.price,
        }
    } else {
        a.id < b.id
    }
}

/// Inserts `k` where the priority order puts it. Returns the position.
pub fn insert_key(side: OrderSide, keys: &mut Vec<BookKey>, k: BookKey) -> (pos: usize)
    requires
        sorted_by_priority(side, old(keys)@),
        forall|i: int| 0 <= i < old(keys)@.len() ==> old(keys)@[i] != k,
    ensures
        pos <= old(keys)@.len(),
        final(keys)@ == old(keys)@.insert(pos as int, k),
        sorted_by_priority(side, final(keys)@),
{
    let mut i: usize = 0;
    while i < keys.len() && !key_precedes(side, k, keys[i])
        invariant
            keys@ == old(keys)@,
            sorted_by_priority(side, keys@),
            forall|j: int| 0 <= j < keys@.len() ==> keys@[j] != k,
            i <= keys@.len(),
            forall|j: int| 0 <= j < i ==> precedes(side, #[trigger] keys@[j], k),
        decreases keys@.len() - i,
    {
        assert(keys@[i as int] != k);
        i += 1;
    }
    let ghost before = keys@;
    keys.insert(i, k);
    proof {
        let s = keys@;
        assert forall|a: int, b: int| 0 <= a < b < s.len() implies #[trigger] precedes(side, s[a], s[b]) by {
            if b < i {
                assert(s[a] == before[a] && s[b] == before[b]);
            } else if b == i {
                assert(s[a] == before[a]);
            } else if a == i {
                assert(s[b] == before[b - 1]);
                assert(precedes(side, k, before[i as int]));
                if b - 1 > i {
                    assert(precedes(side, before[i as int], before[b - 1]));
                }
            } else if a < i {
                assert(s[a] == before[a] && s[b] == before[b - 1]);
                assert(precedes(side, before[a], before[b - 1]));
            } else {
                assert(s[a] == before[a - 1] && s[b] == before[b - 1]);
                assert(precedes(side, before[a - 1], before[b - 1]));
            }
        }
    }
    i
}

/// The order a key refers to; order `id` is stored at index `id - 1`.
pub open spec fn order_of(orders: Seq<Order>, k: BookKey) -> Order {
    orders[k.id - 1]
}

pub open spec fn ids_in_range(keys: Seq<BookKey>, n: int) -> bool {
    forall|i: int| 0 <= i < keys.len() ==> 1 <= #[trigger] keys[i].id <= n
}

/// The keys whose orders are not filled, in the order they had.
pub open spec fn open_keys(keys: Seq<BookKey>, orders: Seq<Order>) -> Seq<BookKey>
    decreases keys.len(),
{
    if keys.len() == 0 {
        keys
    } else {
        let rest = open_keys(keys.drop_last(), orders);
        if order_of(orders, keys.last()).status == OrderStatus::Filled {
            rest
        } else {
            rest.push(keys.last())
        }
    }
}

/// Every key kept is a key of `keys`, and keys keep their relative order.
pub proof fn lemma_open_keys_sorted(side: OrderSide, keys: Seq<BookKey>, orders: Seq<Order>)
    requires
        sorted_by_priority(side, keys),
    ensures
        sorted_by_priority(side, open_keys(keys, orders)),
        forall|x: BookKey| open_keys(keys, orders).contains(x) ==> keys.contains(x),
        forall|x: BookKey| open_keys(keys, orders).contains(x) ==> order_of(orders, x).status != OrderStatus::Filled,
    decreases keys.len(),
{
    if keys.len() > 0 {
        let init = keys.drop_last();
        assert(sorted_by_priority(side, init));
        lemma_open_keys_sorted(side, init, orders);
        let rest = open_keys(init, orders);
        assert forall|x: BookKey| open_keys(keys, orders).contains(x) implies keys.contains(x) by {
            if rest.contains(x) {
                assert(init.contains(x));
                let j = choose|j: int| 0 <= j < init.len() && init[j] == x;
                assert(keys[j] == x);
            } else {
                assert(keys[keys.len() - 1] == x);
            }
        }
        assert forall|x: BookKey| open_keys(keys, orders).contains(x) implies order_of(orders, x).status != OrderStatus::Filled by {
            if !rest.contains(x) {
                let j = choose|j: int| 0 <= j < open_keys(keys, orders).len() && open_keys(keys, orders)[j] == x;
                assert(j == rest.len());
            }
        }
        assert forall|i: int| 0 <= i < rest.len() implies #[trigger] precedes(side, rest[i], keys.last()) by {
            assert(rest.contains(rest[i]));
            assert(init.contains(rest[i]));
            let j = choose|j: int| 0 <= j < init.len() && init[j] == rest[i];
            assert(keys[j] == init[j]);
        }
    }
}

/// Drops the keys whose orders are now filled.
pub fn retain_open(keys: &Vec<BookKey>, orders: &Vec<Order>) -> (r: Vec<BookKey>)
    requires
        ids_in_range(keys@, orders@.len() as int),
    ensures
        r@ == open_keys(keys@, orders@),
{
    let mut out: Vec<BookKey> = Vec::new();
    let mut i: usize = 0;
    while i < keys.len()
        invariant
            i <= keys@.len(),
            ids_in_range(keys@, orders@.len() as int),
            out@ == open_keys(keys@.take(i as int), orders@),
        decreases keys@.len() - i,
    {
        let k = keys[i];
        assert(keys@.take(i + 1).drop_last() =~= keys@.take(i as int));
        assert(keys@.take(i + 1).last() == k);
        assert(1 <= keys@[i as int].id <= orders@.len());
        let n: usize = orders.len();
        assert(k.id - 1 < n);
        let idx: usize = (k.id - 1) as usize;
        assert(idx == k.id - 1);
        let ghost pre = keys@.take(i + 1);
        assert(order_of(orders@, pre.last()) == orders@[idx as int]);
        if orders[idx].status != OrderStatus::Filled {
            out.push(k);
        }
        assert(out@ == open_keys(pre, orders@));
        i += 1;
    }
    assert(keys@.take(keys@.len() as int) =~= keys@);
    out
}

} // verus!
