use vstd::prelude::*;
use crate::book::{order_of, precedes, sorted_by_priority, BookKey};
use crate::models::{Order, OrderSide};

verus! {

/// One trade against a resting order: `qty` units at the resting `price`.
#[derive(Clone, Copy, Debug, PartialEq, Eq, Structural)]
pub struct Fill {
    pub id: u64,
    pub price: u128,
    pub qty: u128,
}

/// A key is a candidate when it trades against `token` and, for a limit
/// order, sits at exactly the order's price.
pub open spec fn in_level(k: BookKey, token: u32, level: Option<u128>) -> bool {
    k.token == token && (level matches Some(p) ==> k.price == p)
}

pub open spec fn min(a: int, b: int) -> int {
    if a < b { a } else { b }
}

/// Fills of an order that asks for `need` units: candidates are taken in
/// book order, each for as much as it has open and the order still needs.
pub open spec fn qty_fills(keys: Seq<BookKey>, orders: Seq<Order>, token: u32, level: Option<u128>, need: int) -> Seq<Fill>
    decreases keys.len(),
{
    if keys.len() == 0 || need <= 0 {
        Seq::empty()
    } else if !in_level(keys[0], token, level) {
        qty_fills(keys.drop_first(), orders, token, level, need)
    } else {
        let d = min(order_of(orders, keys[0]).unmatched(), need);
        seq![Fill { id: keys[0].id, price: keys[0].price, qty: d as u128 }]
            + qty_fills(keys.drop_first(), orders, token, level, need - d)
    }
}

/// Fills of a market buy that may spend `funds`: at each candidate it buys
/// what it can afford at that candidate's price, up to what is open there,
/// and stops at the first candidate where it cannot afford a single unit.
/// At a price of zero everything open there is affordable.
pub open spec fn funds_fills(keys: Seq<BookKey>, orders: Seq<Order>, token: u32, funds: int) -> Seq<Fill>
    decreases keys.len(),
{
    if keys.len() == 0 {
        Seq::empty()
    } else if keys[0].token != token {
        funds_fills(keys.drop_first(), orders, token, funds)
    } else {
        let k = keys[0];
        let avail = order_of(orders, k).unmatched();
        if k.price == 0 {
            seq![Fill { id: k.id, price: 0, qty: avail as u128 }] + funds_fills(keys.drop_first(), orders, token, funds)
        } else if funds / (k.price as int) == 0 {
            Seq::empty()
        } else {
            let d = min(avail, funds / (k.price as int));
            seq![Fill { id: k.id, price: k.price, qty: d as u128 }]
                + funds_fills(keys.drop_first(), orders, token, funds - d * k.price)
        }
    }
}

pub open spec fn total_qty(fills: Seq<Fill>) -> int
    decreases fills.len(),
{
    if fills.len() == 0 { 0 } else { total_qty(fills.drop_last()) + fills.last().qty }
}

/// Quote units that change hands over the fills.
pub open spec fn total_cost(fills: Seq<Fill>) -> int
    decreases fills.len(),
{
    if fills.len() == 0 { 0 } else { total_cost(fills.drop_last()) + fills.last().qty * fills.last().price }
}

/// What the fills may assume of the resting orders that the keys refer to.
pub open spec fn resting_ok(keys: Seq<BookKey>, orders: Seq<Order>, side: OrderSide) -> bool {
    &&& forall|i: int| 0 <= i < keys.len() ==> 1 <= #[trigger] keys[i].id <= orders.len()
    &&& forall|i: int| 0 <= i < keys.len() ==> {
        let o = #[trigger] order_of(orders, keys[i]);
        o.qty_matched < o.qty_requested && o.side == side
    }
    &&& forall|i: int, j: int| 0 <= i < j < keys.len() ==> #[trigger] keys[i].id != #[trigger] keys[j].id
}

/// What every plan of fills guarantees.
pub open spec fn fills_ok(fills: Seq<Fill>, orders: Seq<Order>, side: OrderSide) -> bool {
    &&& forall|j: int| 0 <= j < fills.len() ==> 1 <= #[trigger] fills[j].id <= orders.len()
    &&& forall|j: int| 0 <= j < fills.len() ==> {
        let o = orders[#[trigger] fills[j].id - 1];
        fills[j].qty <= o.qty_requested - o.qty_matched && o.side == side
    }
    &&& forall|i: int, j: int| 0 <= i < j < fills.len() ==> #[trigger] fills[i].id != #[trigger] fills[j].id
}

/// Plans the fills of an order that asks for `need` units.
pub fn plan_by_qty(keys: &Vec<BookKey>, orders: &Vec<Order>, side: OrderSide, token: u32, level: Option<u128>, need: u128) -> (r: Vec<Fill>)
    requires
        resting_ok(keys@, orders@, side),
    ensures
        r@ == qty_fills(keys@, orders@, token, level, need as int),
        fills_ok(r@, orders@, side),
        total_qty(r@) <= need,
{
    let mut fills: Vec<Fill> = Vec::new();
    let mut matched: u128 = 0;
    let mut i: usize = 0;
    assert(keys@.skip(0) =~= keys@);
    assert(fills@ + qty_fills(keys@, orders@, token, level, need as int) =~= qty_fills(keys@, orders@, token, level, need as int));
    while i < keys.len() && matched < need
        invariant
            resting_ok(keys@, orders@, side),
            i <= keys@.len(),
            matched <= need,
            total_qty(fills@) == matched,
            fills@ + qty_fills(keys@.skip(i as int), orders@, token, level, need - matched)
                == qty_fills(keys@, orders@, token, level, need as int),
            fills_ok(fills@, orders@, side),
            forall|j: int, p: int| 0 <= j < fills@.len() && i <= p < keys@.len() ==> #[trigger] fills@[j].id != #[trigger] keys@[p].id,
        decreases keys@.len() - i,
    {
        let k = keys[i];
        let ghost rest = keys@.skip(i as int);
        assert(rest.drop_first() =~= keys@.skip(i + 1));
        assert(rest[0] == k);
        let in_lvl = k.token == token && match level {
            Some(p) => k.price == p,
            None => true,
        };
        if in_lvl {
            let n: usize = orders.len();
            assert(1 <= keys@[i as int].id <= n);
            let idx: usize = (k.id - 1) as usize;
            let avail = orders[idx].get_qty_unmatched();
            let want = need - matched;
            let d = if avail < want { avail } else { want };
            let f = Fill { id: k.id, price: k.price, qty: d };
            let ghost before = fills@;
            fills.push(f);
            matched = matched + d;
            proof {
                assert(fills@.drop_last() =~= before);
                assert(seq![f] + qty_fills(keys@.skip(i + 1), orders@, token, level, need - matched)
                    == qty_fills(rest, orders@, token, level, need - (matched - d)));
                assert(before + (seq![f] + qty_fills(keys@.skip(i + 1), orders@, token, level, need - matched))
                    =~= fills@ + qty_fills(keys@.skip(i + 1), orders@, token, level, need - matched));
                assert forall|j: int, p: int| 0 <= j < fills@.len() && i + 1 <= p < keys@.len() implies
                    #[trigger] fills@[j].id != #[trigger] keys@[p].id by {
                    if j < before.len() {
                        assert(before[j] == fills@[j]);
                    } else {
                        assert(keys@[i as int].id != keys@[p].id);
                    }
                }
                assert forall|a: int, b: int| 0 <= a < b < fills@.len() implies
                    #[trigger] fills@[a].id != #[trigger] fills@[b].id by {
                    if b < before.len() {
                        assert(before[a] == fills@[a] && before[b] == fills@[b]);
                    } else {
                        assert(before[a] == fills@[a]);
                    }
                }
                assert forall|j: int| 0 <= j < fills@.len() implies {
                    let o = orders@[#[trigger] fills@[j].id - 1];
                    fills@[j].qty <= o.qty_requested - o.qty_matched && o.side == side
                } by {
                    if j < before.len() {
                        assert(before[j] == fills@[j]);
                    } else {
                        assert(order_of(orders@, keys@[i as int]) == orders@[idx as int]);
                    }
                }
            }
        }
        i += 1;
    }
    proof {
        if i >= keys@.len() {
            assert(keys@.skip(i as int).len() == 0);
        }
    }
    assert(fills@ + Seq::<Fill>::empty() =~= fills@);
    fills
}

proof fn lemma_affordable(d: int, funds: int, price: int)
    requires
        0 <= d <= funds / price,
        0 <= funds,
        0 < price,
    ensures
        d * price <= funds,
        0 <= d * price,
{
    assert(d * price <= (funds / price) * price) by (nonlinear_arith)
        requires d <= funds / price, 0 < price;
    assert((funds / price) * price <= funds) by (nonlinear_arith)
        requires 0 <= funds, 0 < price;
    assert(0 <= d * price) by (nonlinear_arith)
        requires 0 <= d, 0 < price;
}

/// Plans the fills of a market buy that may spend `funds`. Also returns
/// the funds left over.
pub fn plan_by_funds(keys: &Vec<BookKey>, orders: &Vec<Order>, side: OrderSide, token: u32, funds: u128) -> (r: (Vec<Fill>, u128))
    requires
        resting_ok(keys@, orders@, side),
    ensures
        r.0@ == funds_fills(keys@, orders@, token, funds as int),
        fills_ok(r.0@, orders@, side),
        r.1 == funds - total_cost(r.0@),
{
    let mut fills: Vec<Fill> = Vec::new();
    let mut balance: u128 = funds;
    let mut stop = false;
    let mut i: usize = 0;
    assert(keys@.skip(0) =~= keys@);
    assert(fills@ + funds_fills(keys@, orders@, token, funds as int) =~= funds_fills(keys@, orders@, token, funds as int));
    while i < keys.len() && !stop
        invariant
            resting_ok(keys@, orders@, side),
            i <= keys@.len(),
            total_cost(fills@) == funds - balance,
            stop ==> funds_fills(keys@.skip(i as int), orders@, token, balance as int) == Seq::<Fill>::empty(),
            fills@ + funds_fills(keys@.skip(i as int), orders@, token, balance as int)
                == funds_fills(keys@, orders@, token, funds as int),
            fills_ok(fills@, orders@, side),
            forall|j: int, p: int| 0 <= j < fills@.len() && i <= p < keys@.len() ==> #[trigger] fills@[j].id != #[trigger] keys@[p].id,
        decreases keys@.len() - i, (if stop { 0int } else { 1int }),
    {
        let k = keys[i];
        let ghost rest = keys@.skip(i as int);
        assert(rest.drop_first() =~= keys@.skip(i + 1));
        assert(rest[0] == k);
        if k.token == token {
            let n: usize = orders.len();
            assert(1 <= keys@[i as int].id <= n);
            let idx: usize = (k.id - 1) as usize;
            assert(order_of(orders@, keys@[i as int]) == orders@[idx as int]);
            let avail = orders[idx].get_qty_unmatched();
            let d: u128;
            if k.price == 0 {
                d = avail;
            } else {
                let afford = balance / k.price;
                if afford == 0 {
                    d = 0;
                } else {
                    d = if avail < afford { avail } else { afford };
                }
            }
            if k.price != 0 && balance / k.price == 0 {
                stop = true;
            } else {
                let cost: u128;
                if k.price == 0 {
                    cost = 0;
                } else {
                    proof { lemma_affordable(d as int, balance as int, k.price as int); }
                    cost = d * k.price;
                }
                let f = Fill { id: k.id, price: k.price, qty: d };
                let ghost before = fills@;
                let ghost bal0 = balance;
                fills.push(f);
                balance = balance - cost;
                proof {
                    assert(fills@.drop_last() =~= before);
                    assert(total_cost(fills@) == total_cost(before) + (d as int) * (k.price as int));
                    if k.price == 0 {
                        assert((d as int) * (k.price as int) == 0) by (nonlinear_arith)
                            requires k.price == 0;
                    }
                    assert(seq![f] + funds_fills(keys@.skip(i + 1), orders@, token, balance as int)
                        == funds_fills(rest, orders@, token, bal0 as int));
                    assert(before + (seq![f] + funds_fills(keys@.skip(i + 1), orders@, token, balance as int))
                        =~= fills@ + funds_fills(keys@.skip(i + 1), orders@, token, balance as int));
                    assert forall|j: int, p: int| 0 <= j < fills@.len() && i + 1 <= p < keys@.len() implies
                        #[trigger] fills@[j].id != #[trigger] keys@[p].id by {
                        if j < before.len() {
                            assert(before[j] == fills@[j]);
                        } else {
                            assert(keys@[i as int].id != keys@[p].id);
                        }
                    }
                    assert forall|a: int, b: int| 0 <= a < b < fills@.len() implies
                        #[trigger] fills@[a].id != #[trigger] fills@[b].id by {
                        if b < before.len() {
                            assert(before[a] == fills@[a] && before[b] == fills@[b]);
                        } else {
                            assert(before[a] == fills@[a]);
                        }
                    }
                    assert forall|j: int| 0 <= j < fills@.len() implies {
                        let o = orders@[#[trigger] fills@[j].id - 1];
                        fills@[j].qty <= o.qty_requested - o.qty_matched && o.side == side
                    } by {
                        if j < before.len() {
                            assert(before[j] == fills@[j]);
                        }
                    }
                }
            }
        }
        if !stop {
            i += 1;
        }
    }
    proof {
        if i >= keys@.len() {
            assert(keys@.skip(i as int).len() == 0);
        }
    }
    assert(fills@ + Seq::<Fill>::empty() =~= fills@);
    (fills, balance)
}

/// The book key a fill was taken from.
pub open spec fn fill_key(f: Fill, token: u32) -> BookKey {
    BookKey { token, price: f.price, id: f.id }
}

/// Fills of an order that asks for units come from candidate keys, in book
/// order.
pub proof fn lemma_qty_fills_in_order(side: OrderSide, keys: Seq<BookKey>, orders: Seq<Order>, token: u32, level: Option<u128>, need: int)
    requires
        sorted_by_priority(side, keys),
    ensures
        ({
            let fs = qty_fills(keys, orders, token, level, need);
            &&& forall|j: int| 0 <= j < fs.len() ==> keys.contains(fill_key(#[trigger] fs[j], token))
            &&& forall|j: int| 0 <= j < fs.len() ==> in_level(fill_key(#[trigger] fs[j], token), token, level)
            &&& forall|i: int, j: int| 0 <= i < j < fs.len() ==> precedes(side, fill_key(#[trigger] fs[i], token), fill_key(#[trigger] fs[j], token))
        }),
    decreases keys.len(),
{
    if keys.len() > 0 && need > 0 {
        let tail = keys.drop_first();
        assert(sorted_by_priority(side, tail));
        let d = min(order_of(orders, keys[0]).unmatched(), need);
        let next = if in_level(keys[0], token, level) { need - d } else { need };
        lemma_qty_fills_in_order(side, tail, orders, token, level, next);
        let rest = qty_fills(tail, orders, token, level, next);
        let fs = qty_fills(keys, orders, token, level, need);
        assert forall|j: int| 0 <= j < rest.len() implies keys.contains(fill_key(#[trigger] rest[j], token)) by {
            let p = choose|p: int| 0 <= p < tail.len() && tail[p] == fill_key(rest[j], token);
            assert(keys[p + 1] == tail[p]);
        }
        if in_level(keys[0], token, level) {
            assert(fs == seq![fs[0]] + rest);
            assert(fill_key(fs[0], token) == keys[0]);
            assert forall|j: int| 0 <= j < fs.len() implies keys.contains(fill_key(#[trigger] fs[j], token)) by {
                if j == 0 {
                    assert(keys[0] == fill_key(fs[0], token));
                } else {
                    assert(fs[j] == rest[j - 1]);
                }
            }
            assert forall|j: int| 0 <= j < fs.len() implies in_level(fill_key(#[trigger] fs[j], token), token, level) by {
                if j > 0 {
                    assert(fs[j] == rest[j - 1]);
                }
            }
            assert forall|i: int, j: int| 0 <= i < j < fs.len() implies precedes(side, fill_key(#[trigger] fs[i], token), fill_key(#[trigger] fs[j], token)) by {
                assert(fs[j] == rest[j - 1]);
                if i == 0 {
                    let p = choose|p: int| 0 <= p < tail.len() && tail[p] == fill_key(rest[j - 1], token);
                    assert(keys[p + 1] == tail[p]);
                    assert(precedes(side, keys[0], keys[p + 1]));
                } else {
                    assert(fs[i] == rest[i - 1]);
                }
            }
        }
    }
}

/// Units open over the candidate keys of a token and price level.
pub open spec fn level_avail(keys: Seq<BookKey>, orders: Seq<Order>, token: u32, level: Option<u128>) -> int
    decreases keys.len(),
{
    if keys.len() == 0 {
        0
    } else if in_level(keys[0], token, level) {
        order_of(orders, keys[0]).unmatched() + level_avail(keys.drop_first(), orders, token, level)
    } else {
        level_avail(keys.drop_first(), orders, token, level)
    }
}

proof fn lemma_total_qty_cons(f: Fill, rest: Seq<Fill>)
    ensures
        total_qty(seq![f] + rest) == f.qty + total_qty(rest),
    decreases rest.len(),
{
    if rest.len() > 0 {
        let s = seq![f] + rest;
        assert(s.drop_last() =~= seq![f] + rest.drop_last());
        assert(s.last() == rest.last());
        lemma_total_qty_cons(f, rest.drop_last());
        assert(total_qty(s) == total_qty(s.drop_last()) + s.last().qty);
        assert(total_qty(rest) == total_qty(rest.drop_last()) + rest.last().qty);
    } else {
        assert(seq![f] + rest =~= seq![f]);
        assert(seq![f].drop_last() =~= Seq::<Fill>::empty());
        assert(total_qty(seq![f]) == total_qty(seq![f].drop_last()) + seq![f].last().qty);
        assert(total_qty(rest) == 0);
    }
}

/// An order asking for `need` units matches all of them, or all that is open
/// among its candidates, whichever is less.
pub proof fn lemma_qty_fills_total(keys: Seq<BookKey>, orders: Seq<Order>, token: u32, level: Option<u128>, need: int)
    requires
        need >= 0,
        forall|i: int| 0 <= i < keys.len() ==> {
            let o = #[trigger] order_of(orders, keys[i]);
            o.qty_matched <= o.qty_requested
        },
    ensures
        total_qty(qty_fills(keys, orders, token, level, need)) == min(need, level_avail(keys, orders, token, level)),
        level_avail(keys, orders, token, level) >= 0,
    decreases keys.len(),
{
    if keys.len() > 0 {
        let tail = keys.drop_first();
        assert forall|i: int| 0 <= i < tail.len() implies {
            let o = #[trigger] order_of(orders, tail[i]);
            o.qty_matched <= o.qty_requested
        } by {
            assert(tail[i] == keys[i + 1]);
        }
        let u = order_of(orders, keys[0]).unmatched();
        assert(order_of(orders, keys[0]).qty_matched <= order_of(orders, keys[0]).qty_requested);
        let d = min(u, need);
        if in_level(keys[0], token, level) {
            lemma_qty_fills_total(tail, orders, token, level, need - d);
            if need > 0 {
                let f = Fill { id: keys[0].id, price: keys[0].price, qty: d as u128 };
                lemma_total_qty_cons(f, qty_fills(tail, orders, token, level, need - d));
            }
        } else {
            lemma_qty_fills_total(tail, orders, token, level, need);
        }
    } else {
        assert(total_qty(Seq::<Fill>::empty()) == 0);
    }
}

/// Every fill but the last takes all that its resting order had open: an
/// order is only left partly open when the incoming order is satisfied.
pub proof fn lemma_qty_fills_exhaust(keys: Seq<BookKey>, orders: Seq<Order>, token: u32, level: Option<u128>, need: int)
    requires
        forall|i: int| 0 <= i < keys.len() ==> {
            let o = #[trigger] order_of(orders, keys[i]);
            o.qty_matched <= o.qty_requested
        },
    ensures
        ({
            let fs = qty_fills(keys, orders, token, level, need);
            forall|j: int| 0 <= j < fs.len() - 1 ==> (#[trigger] fs[j]).qty == orders[fs[j].id - 1].unmatched()
        }),
    decreases keys.len(),
{
    if keys.len() > 0 && need > 0 {
        let tail = keys.drop_first();
        let d = min(order_of(orders, keys[0]).unmatched(), need);
        let next = if in_level(keys[0], token, level) { need - d } else { need };
        assert forall|i: int| 0 <= i < tail.len() implies {
            let o = #[trigger] order_of(orders, tail[i]);
            o.qty_matched <= o.qty_requested
        } by {
            assert(tail[i] == keys[i + 1]);
        }
        lemma_qty_fills_exhaust(tail, orders, token, level, next);
        let rest = qty_fills(tail, orders, token, level, next);
        let fs = qty_fills(keys, orders, token, level, need);
        if in_level(keys[0], token, level) {
            assert(fs == seq![fs[0]] + rest);
            if d < order_of(orders, keys[0]).unmatched() {
                assert(next == 0);
                assert(rest.len() == 0);
            }
            assert forall|j: int| 0 <= j < fs.len() - 1 implies (#[trigger] fs[j]).qty == orders[fs[j].id - 1].unmatched() by {
                if j > 0 {
                    assert(fs[j] == rest[j - 1]);
                } else {
                    assert(rest.len() > 0);
                    assert(order_of(orders, keys[0]).qty_matched <= order_of(orders, keys[0]).qty_requested);
                }
            }
        }
    }
}

proof fn lemma_funds_fills_stop(keys: Seq<BookKey>, orders: Seq<Order>, token: u32, funds: int, p: int)
    requires
        0 <= funds < p,
        forall|i: int| 0 <= i < keys.len() && (#[trigger] keys[i]).token == token ==> keys[i].price >= p,
    ensures
        funds_fills(keys, orders, token, funds).len() == 0,
    decreases keys.len(),
{
    if keys.len() > 0 {
        let tail = keys.drop_first();
        assert forall|i: int| 0 <= i < tail.len() && (#[trigger] tail[i]).token == token implies tail[i].price >= p by {
            assert(tail[i] == keys[i + 1]);
        }
        lemma_funds_fills_stop(tail, orders, token, funds, p);
        if keys[0].token == token {
            assert(keys[0].price >= p);
            assert(funds / (keys[0].price as int) == 0) by (nonlinear_arith)
                requires 0 <= funds < p, keys[0].price >= p;
        }
    }
}

/// Every fill of a market buy but the last takes all that its resting
/// order had open.
pub proof fn lemma_funds_fills_exhaust(keys: Seq<BookKey>, orders: Seq<Order>, token: u32, funds: int)
    requires
        funds >= 0,
        sorted_by_priority(OrderSide::Sell, keys),
        forall|i: int| 0 <= i < keys.len() ==> {
            let o = #[trigger] order_of(orders, keys[i]);
            o.qty_matched <= o.qty_requested
        },
    ensures
        ({
            let fs = funds_fills(keys, orders, token, funds);
            forall|j: int| 0 <= j < fs.len() - 1 ==> (#[trigger] fs[j]).qty == orders[fs[j].id - 1].unmatched()
        }),
    decreases keys.len(),
{
    if keys.len() > 0 {
        let tail = keys.drop_first();
        assert(sorted_by_priority(OrderSide::Sell, tail));
        assert forall|i: int| 0 <= i < tail.len() implies {
            let o = #[trigger] order_of(orders, tail[i]);
            o.qty_matched <= o.qty_requested
        } by {
            assert(tail[i] == keys[i + 1]);
        }
        let k = keys[0];
        let u = order_of(orders, k).unmatched();
        assert(order_of(orders, k).qty_matched <= order_of(orders, k).qty_requested);
        let fs = funds_fills(keys, orders, token, funds);
        if k.token != token || k.price == 0 || funds / (k.price as int) == 0 {
            lemma_funds_fills_exhaust(tail, orders, token, funds);
            if k.token != token {
                assert(fs == funds_fills(tail, orders, token, funds));
            } else if k.price != 0 {
                assert(fs.len() == 0);
            }
            if k.token == token && k.price == 0 {
                let rest = funds_fills(tail, orders, token, funds);
                assert(fs == seq![fs[0]] + rest);
                assert forall|j: int| 0 <= j < fs.len() - 1 implies (#[trigger] fs[j]).qty == orders[fs[j].id - 1].unmatched() by {
                    if j > 0 {
                        assert(fs[j] == rest[j - 1]);
                    }
                }
            }
        } else {
            let a = funds / (k.price as int);
            let d = min(u, a);
            let left = funds - d * k.price;
            lemma_affordable(d, funds, k.price as int);
            lemma_funds_fills_exhaust(tail, orders, token, left);
            let rest = funds_fills(tail, orders, token, left);
            assert(fs == seq![fs[0]] + rest);
            if d < u {
                assert(left < k.price) by (nonlinear_arith)
                    requires d == funds / (k.price as int), left == funds - d * k.price, k.price > 0, funds >= 0;
                assert forall|i: int| 0 <= i < tail.len() && (#[trigger] tail[i]).token == token implies tail[i].price >= k.price by {
                    assert(tail[i] == keys[i + 1]);
                    assert(precedes(OrderSide::Sell, keys[0], keys[i + 1]));
                }
                lemma_funds_fills_stop(tail, orders, token, left, k.price as int);
            }
            assert forall|j: int| 0 <= j < fs.len() - 1 implies (#[trigger] fs[j]).qty == orders[fs[j].id - 1].unmatched() by {
                if j > 0 {
                    assert(fs[j] == rest[j - 1]);
                } else {
                    assert(rest.len() > 0);
                    assert(d == u);
                    assert(fs[0].id == k.id);
                }
            }
        }
    }
}

/// Fills of a market buy come from keys of its token, in book order.
pub proof fn lemma_funds_fills_in_order(side: OrderSide, keys: Seq<BookKey>, orders: Seq<Order>, token: u32, funds: int)
    requires
        sorted_by_priority(side, keys),
    ensures
        ({
            let fs = funds_fills(keys, orders, token, funds);
            &&& forall|j: int| 0 <= j < fs.len() ==> keys.contains(fill_key(#[trigger] fs[j], token))
            &&& forall|i: int, j: int| 0 <= i < j < fs.len() ==> precedes(side, fill_key(#[trigger] fs[i], token), fill_key(#[trigger] fs[j], token))
        }),
    decreases keys.len(),
{
    if keys.len() > 0 {
        let tail = keys.drop_first();
        assert(sorted_by_priority(side, tail));
        let k = keys[0];
        let avail = order_of(orders, k).unmatched();
        let next = if k.token != token || k.price == 0 || funds / (k.price as int) == 0 {
            funds
        } else {
            funds - min(avail, funds / (k.price as int)) * k.price
        };
        lemma_funds_fills_in_order(side, tail, orders, token, next);
        let rest = funds_fills(tail, orders, token, next);
        let fs = funds_fills(keys, orders, token, funds);
        assert forall|j: int| 0 <= j < rest.len() implies keys.contains(fill_key(#[trigger] rest[j], token)) by {
            let p = choose|p: int| 0 <= p < tail.len() && tail[p] == fill_key(rest[j], token);
            assert(keys[p + 1] == tail[p]);
        }
        if k.token == token && (k.price == 0 || funds / (k.price as int) != 0) {
            assert(fs == seq![fs[0]] + rest);
            assert(fill_key(fs[0], token) == keys[0]);
            assert forall|j: int| 0 <= j < fs.len() implies keys.contains(fill_key(#[trigger] fs[j], token)) by {
                if j == 0 {
                    assert(keys[0] == fill_key(fs[0], token));
                } else {
                    assert(fs[j] == rest[j - 1]);
                }
            }
            assert forall|i: int, j: int| 0 <= i < j < fs.len() implies precedes(side, fill_key(#[trigger] fs[i], token), fill_key(#[trigger] fs[j], token)) by {
                assert(fs[j] == rest[j - 1]);
                if i == 0 {
                    let p = choose|p: int| 0 <= p < tail.len() && tail[p] == fill_key(rest[j - 1], token);
                    assert(keys[p + 1] == tail[p]);
                    assert(precedes(side, keys[0], keys[p + 1]));
                } else {
                    assert(fs[i] == rest[i - 1]);
                }
            }
        }
    }
}

proof fn lemma_totals_grow(s: Seq<Fill>, i: int)
    requires
        0 <= i <= s.len(),
    ensures
        total_qty(s.take(i)) <= total_qty(s),
        total_cost(s.take(i)) <= total_cost(s),
        0 <= total_qty(s.take(i)),
        0 <= total_cost(s.take(i)),
    decreases s.len() - i,
{
    if i < s.len() {
        lemma_totals_grow(s, i + 1);
        lemma_totals_nonneg(s.take(i));
        assert(s.take(i + 1).drop_last() =~= s.take(i));
        let f = s[i];
        assert(0 <= f.qty * f.price) by (nonlinear_arith)
            requires 0 <= f.qty, 0 <= f.price;
    } else {
        assert(s.take(i) =~= s);
        lemma_totals_nonneg(s);
    }
}

pub proof fn lemma_totals_nonneg(s: Seq<Fill>)
    ensures
        0 <= total_qty(s),
        0 <= total_cost(s),
    decreases s.len(),
{
    if s.len() > 0 {
        lemma_totals_nonneg(s.drop_last());
        let f = s.last();
        assert(0 <= f.qty * f.price) by (nonlinear_arith)
            requires 0 <= f.qty, 0 <= f.price;
    }
}

/// Units over all fills; `None` where the sum does not fit.
pub fn sum_qty(fills: &Vec<Fill>) -> (r: Option<u128>)
    ensures
        r matches Some(v) ==> v == total_qty(fills@),
        r is None ==> total_qty(fills@) > u128::MAX,
{
    let mut acc: u128 = 0;
    let mut i: usize = 0;
    while i < fills.len()
        invariant
            i <= fills@.len(),
            acc == total_qty(fills@.take(i as int)),
        decreases fills@.len() - i,
    {
        assert(fills@.take(i + 1).drop_last() =~= fills@.take(i as int));
        match acc.checked_add(fills[i].qty) {
            Some(v) => acc = v,
            None => {
                proof { lemma_totals_grow(fills@, i + 1); }
                return None;
            },
        }
        i += 1;
    }
    assert(fills@.take(i as int) =~= fills@);
    Some(acc)
}

/// Quote units over all fills; `None` where the sum does not fit.
pub fn sum_cost(fills: &Vec<Fill>) -> (r: Option<u128>)
    ensures
        r matches Some(v) ==> v == total_cost(fills@),
        r is None ==> total_cost(fills@) > u128::MAX,
{
    let mut acc: u128 = 0;
    let mut i: usize = 0;
    while i < fills.len()
        invariant
            i <= fills@.len(),
            acc == total_cost(fills@.take(i as int)),
        decreases fills@.len() - i,
    {
        assert(fills@.take(i + 1).drop_last() =~= fills@.take(i as int));
        let f = fills[i];
        proof { lemma_totals_grow(fills@, i + 1); }
        match f.qty.checked_mul(f.price) {
            Some(c) => match acc.checked_add(c) {
                Some(v) => acc = v,
                None => return None,
            },
            None => {
                proof {
                    lemma_totals_grow(fills@, i as int);
                }
                return None;
            },
        }
        i += 1;
    }
    assert(fills@.take(i as int) =~= fills@);
    Some(acc)
}

} // verus!
