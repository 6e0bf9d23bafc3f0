use vstd::prelude::*;
use crate::book::{lemma_open_keys_sorted, open_keys, order_of, precedes, BookKey};
use crate::engine::{apply_fills, book_ok, fill_order, order_ok, rests, settlement, token_id_of, tif_status, Exchange};
use crate::ledger::{after_credits, amount_in, credit_map};
use crate::error::ContractError;
use crate::matching::{fill_key, lemma_funds_fills_exhaust, lemma_qty_fills_total, level_avail, qty_fills, lemma_qty_fills_exhaust, lemma_totals_nonneg, total_cost, lemma_funds_fills_in_order, lemma_qty_fills_in_order, total_qty, Fill};
use crate::models::{Order, OrderKind, OrderSide, OrderStatus, TimeInForce};
use crate::msg::OrderRequest;

verus! {

/// Every resting order is open: it matched less than it asked for, and is
/// created or partially matched. A limit order that matched all it asked
/// for is filled and rests nowhere. `submit` keeps this true.
pub proof fn lemma_resting_orders_open(ex: Exchange)
    requires
        ex.wf(),
    ensures
        forall|i: int| 0 <= i < ex.asks@.len() ==> {
            let o = #[trigger] order_of(ex.orders@, ex.asks@[i]);
            o.qty_matched < o.qty_requested && (o.status == OrderStatus::Created || o.status == OrderStatus::Partial)
        },
        forall|i: int| 0 <= i < ex.bids@.len() ==> {
            let o = #[trigger] order_of(ex.orders@, ex.bids@[i]);
            o.qty_matched < o.qty_requested && (o.status == OrderStatus::Created || o.status == OrderStatus::Partial)
        },
        forall|i: int| 0 <= i < ex.orders@.len() && (#[trigger] ex.orders@[i]).kind == OrderKind::Limit ==> {
            let o = ex.orders@[i];
            &&& o.qty_matched <= o.qty_requested
            &&& o.qty_matched == o.qty_requested ==> {
                &&& o.status == OrderStatus::Filled
                &&& forall|j: int| 0 <= j < ex.asks@.len() ==> (#[trigger] ex.asks@[j]).id != i + 1
                &&& forall|j: int| 0 <= j < ex.bids@.len() ==> (#[trigger] ex.bids@[j]).id != i + 1
            }
        },
{
    assert forall|i: int| 0 <= i < ex.orders@.len() && (#[trigger] ex.orders@[i]).kind == OrderKind::Limit implies {
        let o = ex.orders@[i];
        &&& o.qty_matched <= o.qty_requested
        &&& o.qty_matched == o.qty_requested ==> {
            &&& o.status == OrderStatus::Filled
            &&& forall|j: int| 0 <= j < ex.asks@.len() ==> (#[trigger] ex.asks@[j]).id != i + 1
            &&& forall|j: int| 0 <= j < ex.bids@.len() ==> (#[trigger] ex.bids@[j]).id != i + 1
        }
    } by {
        assert(order_ok(ex.orders@[i], i));
        assert forall|j: int| 0 <= j < ex.asks@.len() && ex.orders@[i].qty_matched == ex.orders@[i].qty_requested
            implies (#[trigger] ex.asks@[j]).id != i + 1 by {
            assert(order_of(ex.orders@, ex.asks@[j]).qty_matched < order_of(ex.orders@, ex.asks@[j]).qty_requested);
        }
        assert forall|j: int| 0 <= j < ex.bids@.len() && ex.orders@[i].qty_matched == ex.orders@[i].qty_requested
            implies (#[trigger] ex.bids@[j]).id != i + 1 by {
            assert(order_of(ex.orders@, ex.bids@[j]).qty_matched < order_of(ex.orders@, ex.bids@[j]).qty_requested);
        }
    }
}

/// The keys of the opposite side that a request scans, and the side whose
/// priority orders them.
pub open spec fn scanned_side(ex: Exchange, req: OrderRequest) -> (OrderSide, Seq<BookKey>) {
    if req.side() == OrderSide::Buy { (OrderSide::Sell, ex.asks@) } else { (OrderSide::Buy, ex.bids@) }
}

proof fn lemma_fills_from_book(ex: Exchange, req: OrderRequest, q: u32)
    requires
        ex.wf(),
    ensures
        ({
            let fs = ex.planned_fills(req, q);
            let (side, keys) = scanned_side(ex, req);
            &&& forall|j: int| 0 <= j < fs.len() ==> keys.contains(fill_key(#[trigger] fs[j], q))
            &&& forall|i: int, j: int| 0 <= i < j < fs.len() ==> precedes(side, fill_key(#[trigger] fs[i], q), fill_key(#[trigger] fs[j], q))
            &&& req.kind() == OrderKind::Limit ==> forall|j: int| 0 <= j < fs.len() ==> (#[trigger] fs[j]).price == req.price()
        }),
{
    match req {
        OrderRequest::MarketBuy { balance, .. } => {
            lemma_funds_fills_in_order(OrderSide::Sell, ex.asks@, ex.orders@, q, balance as int);
        },
        OrderRequest::MarketSell { qty, .. } => {
            lemma_qty_fills_in_order(OrderSide::Buy, ex.bids@, ex.orders@, q, None, qty as int);
        },
        OrderRequest::LimitBuy { qty, price, .. } => {
            lemma_qty_fills_in_order(OrderSide::Sell, ex.asks@, ex.orders@, q, Some(price), qty as int);
        },
        OrderRequest::LimitSell { qty, price, .. } => {
            lemma_qty_fills_in_order(OrderSide::Buy, ex.bids@, ex.orders@, q, Some(price), qty as int);
        },
    }
}

/// Every fill trades with a resting order of the other side, of the same
/// quote token, at that order's own limit price. A limit order trades only
/// at its own price. A buy meets prices in increasing order, a sell in
/// decreasing order.
pub proof fn lemma_price_levels(ex: Exchange, req: OrderRequest, q: u32)
    requires
        ex.wf(),
    ensures
        ({
            let fs = ex.planned_fills(req, q);
            &&& forall|j: int| 0 <= j < fs.len() ==> {
                let o = ex.orders@[#[trigger] fs[j].id - 1];
                &&& 1 <= fs[j].id <= ex.orders@.len()
                &&& o.limit_price == fs[j].price
                &&& o.quote_token == q
                &&& o.side == req.side().complement()
            }
            &&& req.kind() == OrderKind::Limit ==> forall|j: int| 0 <= j < fs.len() ==> (#[trigger] fs[j]).price == req.price()
            &&& req.side() == OrderSide::Buy ==> forall|i: int, j: int| 0 <= i < j < fs.len() ==> (#[trigger] fs[i]).price <= (#[trigger] fs[j]).price
            &&& req.side() == OrderSide::Sell ==> forall|i: int, j: int| 0 <= i < j < fs.len() ==> (#[trigger] fs[i]).price >= (#[trigger] fs[j]).price
        }),
{
    lemma_fills_from_book(ex, req, q);
    let fs = ex.planned_fills(req, q);
    let (side, keys) = scanned_side(ex, req);
    assert(book_ok(side, keys, ex.orders@));
    assert forall|j: int| 0 <= j < fs.len() implies {
        let o = ex.orders@[#[trigger] fs[j].id - 1];
        &&& 1 <= fs[j].id <= ex.orders@.len()
        &&& o.limit_price == fs[j].price
        &&& o.quote_token == q
        &&& o.side == req.side().complement()
    } by {
        assert(keys.contains(fill_key(fs[j], q)));
        let p = choose|p: int| 0 <= p < keys.len() && keys[p] == fill_key(fs[j], q);
        assert(1 <= keys[p].id <= ex.orders@.len());
        assert(order_of(ex.orders@, keys[p]) == ex.orders@[fs[j].id - 1]);
    }
    assert forall|i: int, j: int| 0 <= i < j < fs.len() implies
        (req.side() == OrderSide::Buy ==> (#[trigger] fs[i]).price <= (#[trigger] fs[j]).price)
        && (req.side() == OrderSide::Sell ==> fs[i].price >= fs[j].price) by {
        assert(precedes(side, fill_key(fs[i], q), fill_key(fs[j], q)));
    }
}

/// Within one price level, earlier orders (lower ids) are matched first.
pub proof fn lemma_time_priority(ex: Exchange, req: OrderRequest, q: u32)
    requires
        ex.wf(),
    ensures
        ({
            let fs = ex.planned_fills(req, q);
            forall|i: int, j: int| 0 <= i < j < fs.len() && (#[trigger] fs[i]).price == (#[trigger] fs[j]).price ==> fs[i].id < fs[j].id
        }),
{
    lemma_fills_from_book(ex, req, q);
    let fs = ex.planned_fills(req, q);
    let (side, keys) = scanned_side(ex, req);
    assert forall|i: int, j: int| 0 <= i < j < fs.len() && (#[trigger] fs[i]).price == (#[trigger] fs[j]).price implies fs[i].id < fs[j].id by {
        assert(precedes(side, fill_key(fs[i], q), fill_key(fs[j], q)));
    }
}

/// A request takes every resting order it meets whole, except possibly the
/// last: with the priority order above, an older order at a price level is
/// exhausted before a newer one there trades, and a market order exhausts a
/// better price before it trades at a worse one.
pub proof fn lemma_earlier_orders_exhausted(ex: Exchange, req: OrderRequest, q: u32)
    requires
        ex.wf(),
    ensures
        ({
            let fs = ex.planned_fills(req, q);
            forall|j: int| 0 <= j < fs.len() - 1 ==> {
                let o = ex.orders@[(#[trigger] fs[j]).id - 1];
                fs[j].qty == o.qty_requested - o.qty_matched
            }
        }),
{
    match req {
        OrderRequest::MarketSell { qty, .. } => {
            lemma_qty_fills_exhaust(ex.bids@, ex.orders@, q, None, qty as int);
        },
        OrderRequest::LimitBuy { qty, price, .. } => {
            lemma_qty_fills_exhaust(ex.asks@, ex.orders@, q, Some(price), qty as int);
        },
        OrderRequest::LimitSell { qty, price, .. } => {
            lemma_qty_fills_exhaust(ex.bids@, ex.orders@, q, Some(price), qty as int);
        },
        OrderRequest::MarketBuy { balance, .. } => {
            lemma_funds_fills_exhaust(ex.asks@, ex.orders@, q, balance as int);
        },
    }
    lemma_price_levels(ex, req, q);
    let fs = ex.planned_fills(req, q);
    assert forall|j: int| 0 <= j < fs.len() - 1 implies {
        let o = ex.orders@[(#[trigger] fs[j]).id - 1];
        fs[j].qty == o.qty_requested - o.qty_matched
    } by {
        let o = ex.orders@[fs[j].id - 1];
        assert(o.side == req.side().complement());
        let (side, keys) = scanned_side(ex, req);
        lemma_fills_from_book(ex, req, q);
        assert(keys.contains(fill_key(fs[j], q)));
        let p = choose|p: int| 0 <= p < keys.len() && keys[p] == fill_key(fs[j], q);
        assert(book_ok(side, keys, ex.orders@));
        assert(order_of(ex.orders@, keys[p]) == o);
        assert(o.qty_matched < o.qty_requested);
    }
}

/// A fill-or-kill order that asks for units (a limit order or a market
/// sell) and finds fewer units open among its candidates than it asks for is
/// refused for want of liquidity, as long as order ids are not exhausted;
/// `submit` then changes nothing.
pub proof fn lemma_fok_short_level_refused(ex: Exchange, owner: Seq<char>, req: OrderRequest, q: u32)
    requires
        ex.wf(),
        !(req is MarketBuy),
        req.tif() == TimeInForce::Fok,
        ex.order_id_seq < u64::MAX,
        token_id_of(ex.tokens@, req.quote_key()) == Some(q),
        ({
            let (_, keys) = scanned_side(ex, req);
            let level = if req.kind() == OrderKind::Limit { Some(req.price()) } else { None::<u128> };
            level_avail(keys, ex.orders@, q, level) < req.qty()
        }),
    ensures
        ex.refusal(owner, req) == Some(ContractError::InsufficientLiquidity),
{
    let (side, keys) = scanned_side(ex, req);
    let level = if req.kind() == OrderKind::Limit { Some(req.price()) } else { None::<u128> };
    assert(book_ok(side, keys, ex.orders@));
    lemma_qty_fills_total(keys, ex.orders@, q, level, req.qty() as int);
    let fs = ex.planned_fills(req, q);
    assert(fs == qty_fills(keys, ex.orders@, q, level, req.qty() as int));
    assert(total_qty(fs) < req.qty());
}

/// A market order that asks for good-till-canceled, of a registered quote
/// token, is always refused for that reason, whatever the book and the store
/// hold; `submit` then changes nothing.
pub proof fn lemma_market_gtc_refused(ex: Exchange, owner: Seq<char>, req: OrderRequest)
    requires
        req.kind() == OrderKind::Market,
        req.tif() == TimeInForce::Gtc,
        token_id_of(ex.tokens@, req.quote_key()) is Some,
    ensures
        ex.refusal(owner, req) == Some(ContractError::TimeInForceNotAllowed),
{
}

/// A fill-or-kill request that cannot be met in full is refused, and
/// `submit` then leaves the whole store, book and balances included, as it
/// was.
pub proof fn lemma_fok_shortfall_refused(ex: Exchange, owner: Seq<char>, req: OrderRequest)
    requires
        ex.wf(),
        req.tif() == TimeInForce::Fok,
        !ex.fully_matched(req),
    ensures
        ex.refusal(owner, req) is Some,
{
}

proof fn lemma_apply_fills_untouched(orders: Seq<Order>, fills: Seq<Fill>, i: int)
    requires
        0 <= i < orders.len(),
        forall|j: int| 0 <= j < fills.len() ==> (#[trigger] fills[j]).id != i + 1,
        forall|j: int| 0 <= j < fills.len() ==> 1 <= (#[trigger] fills[j]).id <= orders.len(),
    ensures
        apply_fills(orders, fills).len() == orders.len(),
        apply_fills(orders, fills)[i] == orders[i],
    decreases fills.len(),
{
    if fills.len() > 0 {
        let init = fills.drop_last();
        assert forall|j: int| 0 <= j < init.len() implies (#[trigger] init[j]).id != i + 1 && 1 <= init[j].id <= orders.len() by {
            assert(init[j] == fills[j]);
        }
        lemma_apply_fills_untouched(orders, init, i);
        let prev = apply_fills(orders, init);
        let f = fills.last();
        assert(f.id != i + 1);
        assert(apply_fills(orders, fills) == prev.update(f.id - 1, fill_order(prev[f.id - 1], f.qty)));
    }
}

proof fn lemma_apply_fills_at(orders: Seq<Order>, fills: Seq<Fill>, j: int)
    requires
        0 <= j < fills.len(),
        forall|a: int| 0 <= a < fills.len() ==> 1 <= (#[trigger] fills[a]).id <= orders.len(),
        forall|a: int, b: int| 0 <= a < b < fills.len() ==> (#[trigger] fills[a]).id != (#[trigger] fills[b]).id,
    ensures
        apply_fills(orders, fills)[fills[j].id - 1] == fill_order(orders[fills[j].id - 1], fills[j].qty),
    decreases fills.len(),
{
    let init = fills.drop_last();
    assert forall|a: int| 0 <= a < init.len() implies 1 <= (#[trigger] init[a]).id <= orders.len() by {
        assert(init[a] == fills[a]);
    }
    assert forall|a: int, b: int| 0 <= a < b < init.len() implies (#[trigger] init[a]).id != (#[trigger] init[b]).id by {
        assert(init[a] == fills[a] && init[b] == fills[b]);
    }
    lemma_apply_fills_untouched_len(orders, init);
    let f = fills.last();
    if j == fills.len() - 1 {
        assert forall|a: int| 0 <= a < init.len() implies (#[trigger] init[a]).id != f.id by {
            assert(init[a] == fills[a]);
        }
        lemma_apply_fills_untouched(orders, init, f.id - 1);
    } else {
        assert(init[j] == fills[j]);
        lemma_apply_fills_at(orders, init, j);
        assert(fills[j].id != f.id);
    }
}

/// Fills of one request name distinct resting orders.
proof fn lemma_fills_distinct(ex: Exchange, req: OrderRequest, q: u32)
    requires
        ex.wf(),
    ensures
        ({
            let fs = ex.planned_fills(req, q);
            forall|a: int, b: int| 0 <= a < b < fs.len() ==> (#[trigger] fs[a]).id != (#[trigger] fs[b]).id
        }),
{
    lemma_fills_from_book(ex, req, q);
    lemma_price_levels(ex, req, q);
    let fs = ex.planned_fills(req, q);
    let (side, keys) = scanned_side(ex, req);
    assert forall|a: int, b: int| 0 <= a < b < fs.len() implies (#[trigger] fs[a]).id != (#[trigger] fs[b]).id by {
        assert(precedes(side, fill_key(fs[a], q), fill_key(fs[b], q)));
        if fs[a].id == fs[b].id {
            assert(ex.orders@[fs[a].id - 1].limit_price == fs[a].price);
            assert(ex.orders@[fs[b].id - 1].limit_price == fs[b].price);
            assert(fill_key(fs[a], q) == fill_key(fs[b], q));
        }
    }
}

/// Every resting order that a request took before its last fill was taken
/// whole: after the request it is filled and off the book. With the time
/// priority above, an older order at a price level is exhausted before a
/// newer one there trades.
pub proof fn lemma_taken_orders_filled(ex: Exchange, next: Exchange, owner: String, time: u64, req: OrderRequest, o: Order)
    requires
        ex.wf(),
        ex.refusal(owner@, req) is None,
        ex.accepted(next, owner, time, req, o),
    ensures
        ({
            let q = token_id_of(ex.tokens@, req.quote_key())->Some_0;
            let fs = ex.planned_fills(req, q);
            let opp = if req.side() == OrderSide::Buy { next.asks@ } else { next.bids@ };
            forall|j: int| 0 <= j < fs.len() - 1 ==> {
                let n = next.orders@[(#[trigger] fs[j]).id - 1];
                &&& n.qty_matched == n.qty_requested
                &&& n.status == OrderStatus::Filled
                &&& !opp.contains(fill_key(fs[j], q))
            }
        }),
{
    let q = token_id_of(ex.tokens@, req.quote_key())->Some_0;
    let fs = ex.planned_fills(req, q);
    let (side, keys) = scanned_side(ex, req);
    let traded = apply_fills(ex.orders@, fs);
    let opp = if req.side() == OrderSide::Buy { next.asks@ } else { next.bids@ };
    lemma_price_levels(ex, req, q);
    lemma_fills_distinct(ex, req, q);
    lemma_earlier_orders_exhausted(ex, req, q);
    lemma_apply_fills_untouched_len(ex.orders@, fs);
    lemma_open_keys_sorted(side, keys, traded);
    assert(opp == open_keys(keys, traded));
    assert forall|j: int| 0 <= j < fs.len() - 1 implies {
        let n = next.orders@[(#[trigger] fs[j]).id - 1];
        &&& n.qty_matched == n.qty_requested
        &&& n.status == OrderStatus::Filled
        &&& !opp.contains(fill_key(fs[j], q))
    } by {
        lemma_apply_fills_at(ex.orders@, fs, j);
        assert(next.orders@[fs[j].id - 1] == traded[fs[j].id - 1]);
        assert(order_of(traded, fill_key(fs[j], q)) == traded[fs[j].id - 1]);
    }
}

/// After an accepted request the store holds one more order, the one placed,
/// and every earlier order that changed is a resting order of the opposite
/// side that the request scanned: its key, at its own limit price and the
/// request's quote token, was on that side, and for a limit request that
/// price is the request's own.
pub proof fn lemma_only_candidates_change(ex: Exchange, next: Exchange, owner: String, time: u64, req: OrderRequest, o: Order)
    requires
        ex.wf(),
        ex.refusal(owner@, req) is None,
        ex.accepted(next, owner, time, req, o),
    ensures
        next.orders@.len() == ex.orders@.len() + 1,
        next.orders@[ex.orders@.len() as int] == o,
        ({
            let q = token_id_of(ex.tokens@, req.quote_key())->Some_0;
            let keys = scanned_side(ex, req).1;
            forall|i: int| 0 <= i < ex.orders@.len() && #[trigger] next.orders@[i] != ex.orders@[i] ==> {
                &&& keys.contains(BookKey { token: q, price: ex.orders@[i].limit_price, id: (i + 1) as u64 })
                &&& ex.orders@[i].side == req.side().complement()
                &&& (req.kind() == OrderKind::Limit ==> ex.orders@[i].limit_price == req.price())
            }
        }),
{
    let q = token_id_of(ex.tokens@, req.quote_key())->Some_0;
    let fs = ex.planned_fills(req, q);
    let keys = scanned_side(ex, req).1;
    lemma_price_levels(ex, req, q);
    lemma_fills_from_book(ex, req, q);
    lemma_apply_fills_untouched_len(ex.orders@, fs);
    assert forall|i: int| 0 <= i < ex.orders@.len() && #[trigger] next.orders@[i] != ex.orders@[i] implies {
        &&& keys.contains(BookKey { token: q, price: ex.orders@[i].limit_price, id: (i + 1) as u64 })
        &&& ex.orders@[i].side == req.side().complement()
        &&& (req.kind() == OrderKind::Limit ==> ex.orders@[i].limit_price == req.price())
    } by {
        assert(next.orders@[i] == apply_fills(ex.orders@, fs)[i]);
        if forall|j: int| 0 <= j < fs.len() ==> (#[trigger] fs[j]).id != i + 1 {
            lemma_apply_fills_untouched(ex.orders@, fs, i);
        } else {
            let j = choose|j: int| 0 <= j < fs.len() && (#[trigger] fs[j]).id == i + 1;
            assert(keys.contains(fill_key(fs[j], q)));
            assert(ex.orders@[fs[j].id - 1].limit_price == fs[j].price);
            assert(fill_key(fs[j], q) == BookKey { token: q, price: ex.orders@[i].limit_price, id: (i + 1) as u64 });
        }
    }
}

proof fn lemma_apply_fills_untouched_len(orders: Seq<Order>, fills: Seq<Fill>)
    requires
        forall|j: int| 0 <= j < fills.len() ==> 1 <= (#[trigger] fills[j]).id <= orders.len(),
    ensures
        apply_fills(orders, fills).len() == orders.len(),
    decreases fills.len(),
{
    if fills.len() > 0 {
        let init = fills.drop_last();
        assert forall|j: int| 0 <= j < init.len() implies 1 <= (#[trigger] init[j]).id <= orders.len() by {
            assert(init[j] == fills[j]);
        }
        lemma_apply_fills_untouched_len(orders, init);
    }
}

/// An accepted immediate-or-cancel order that asks for units and finds fewer
/// open among its candidates takes all of them and ends matched, not resting.
pub proof fn lemma_ioc_takes_all_available(ex: Exchange, next: Exchange, owner: String, time: u64, req: OrderRequest, o: Order)
    requires
        ex.wf(),
        !(req is MarketBuy),
        req.tif() == TimeInForce::Ioc,
        ex.refusal(owner@, req) is None,
        ex.accepted(next, owner, time, req, o),
        ({
            let q = token_id_of(ex.tokens@, req.quote_key())->Some_0;
            let (_, keys) = scanned_side(ex, req);
            let level = if req.kind() == OrderKind::Limit { Some(req.price()) } else { None::<u128> };
            0 < level_avail(keys, ex.orders@, q, level) < req.qty()
        }),
    ensures
        ({
            let q = token_id_of(ex.tokens@, req.quote_key())->Some_0;
            let (_, keys) = scanned_side(ex, req);
            let level = if req.kind() == OrderKind::Limit { Some(req.price()) } else { None::<u128> };
            o.qty_matched == level_avail(keys, ex.orders@, q, level)
        }),
        o.status == OrderStatus::Matched,
        !rests(o),
{
    let q = token_id_of(ex.tokens@, req.quote_key())->Some_0;
    let (side, keys) = scanned_side(ex, req);
    let level = if req.kind() == OrderKind::Limit { Some(req.price()) } else { None::<u128> };
    assert(book_ok(side, keys, ex.orders@));
    lemma_qty_fills_total(keys, ex.orders@, q, level, req.qty() as int);
    let fs = ex.planned_fills(req, q);
    assert(fs == qty_fills(keys, ex.orders@, q, level, req.qty() as int));
    assert(token_id_of(ex.tokens@, req.quote_key()) is Some);
    assert(total_qty(fs) == level_avail(keys, ex.orders@, q, level));
}

/// An accepted immediate-or-cancel request matched something, never rests,
/// leaves its own side of the book as it was, changes no order but the
/// resting orders it traded with, and credits exactly what each fill traded.
pub proof fn lemma_ioc_never_rests(ex: Exchange, next: Exchange, owner: String, time: u64, req: OrderRequest, o: Order)
    requires
        ex.wf(),
        req.tif() == TimeInForce::Ioc,
        ex.refusal(owner@, req) is None,
        ex.accepted(next, owner, time, req, o),
    ensures
        o.qty_matched > 0,
        o.status == OrderStatus::Filled || o.status == OrderStatus::Matched,
        !rests(o),
        req.side() == OrderSide::Buy ==> next.bids@ == ex.bids@,
        req.side() == OrderSide::Sell ==> next.asks@ == ex.asks@,
        ({
            let q = token_id_of(ex.tokens@, req.quote_key())->Some_0;
            let fs = ex.planned_fills(req, q);
            after_credits(ex.ledger.view(), settlement(ex.orders@, fs, req.side() == OrderSide::Buy, owner@, q))
                == Some(next.ledger.view())
        }),
        ({
            let q = token_id_of(ex.tokens@, req.quote_key())->Some_0;
            let fs = ex.planned_fills(req, q);
            forall|i: int| 0 <= i < ex.orders@.len() && (forall|j: int| 0 <= j < fs.len() ==> (#[trigger] fs[j]).id != i + 1)
                ==> next.orders@[i] == ex.orders@[i]
        }),
{
    let q = token_id_of(ex.tokens@, req.quote_key())->Some_0;
    let fs = ex.planned_fills(req, q);
    assert(token_id_of(ex.tokens@, req.quote_key()) is Some);
    assert(total_qty(fs) <= u128::MAX);
    lemma_totals_nonneg(fs);
    lemma_price_levels(ex, req, q);
    let st = tif_status(req, total_qty(fs), crate::engine::leftover(req, fs));
    assert(st is Ok);
    assert(total_qty(fs) != 0);
    assert forall|i: int| 0 <= i < ex.orders@.len() && (forall|j: int| 0 <= j < fs.len() ==> (#[trigger] fs[j]).id != i + 1)
        implies next.orders@[i] == ex.orders@[i] by {
        lemma_apply_fills_untouched(ex.orders@, fs, i);
    }
}

/// A good-till-canceled limit order for a positive quantity, of a registered
/// quote token, that finds nothing to match at its price is accepted, as
/// long as order ids are not exhausted.
pub proof fn lemma_gtc_unmatched_accepted(ex: Exchange, owner: Seq<char>, req: OrderRequest, q: u32)
    requires
        ex.wf(),
        req.kind() == OrderKind::Limit,
        req.tif() == TimeInForce::Gtc,
        req.qty() > 0,
        ex.order_id_seq < u64::MAX,
        token_id_of(ex.tokens@, req.quote_key()) == Some(q),
        ex.planned_fills(req, q).len() == 0,
    ensures
        ex.refusal(owner, req) is None,
{
    let fs = ex.planned_fills(req, q);
    let buy = req.side() == OrderSide::Buy;
    let cs = settlement(ex.orders@, fs, buy, owner, q);
    assert(total_qty(fs) == 0);
    assert(total_cost(fs) == 0);
    assert(tif_status(req, 0, crate::engine::leftover(req, fs)) == Ok::<OrderStatus, ContractError>(OrderStatus::Created));
    let m = ex.ledger.view();
    let c = cs[0];
    assert(cs.len() == 1);
    assert(c.amount == 0);
    let m2 = m.insert((c.account, c.token), amount_in(m, (c.account, c.token)) as u128);
    assert(credit_map(m, c) == Some(m2));
    assert(cs.drop_first().len() == 0);
    assert(after_credits(m2, cs.drop_first()) == Some(m2));
    assert(after_credits(m, cs) == Some(m2));
}

/// A good-till-canceled limit order for a positive quantity that matches
/// nothing is created and rests on its own side of the book under
/// (token, price, new id), where a later scan at that price finds it.
pub proof fn lemma_gtc_unmatched_rests(ex: Exchange, next: Exchange, owner: String, time: u64, req: OrderRequest, o: Order)
    requires
        ex.wf(),
        req.kind() == OrderKind::Limit,
        req.tif() == TimeInForce::Gtc,
        req.qty() > 0,
        ex.refusal(owner@, req) is None,
        ex.accepted(next, owner, time, req, o),
        o.qty_matched == 0,
    ensures
        o.status == OrderStatus::Created,
        rests(o),
        o.id == Some((ex.order_id_seq + 1) as u64),
        ({
            let q = token_id_of(ex.tokens@, req.quote_key())->Some_0;
            let k = BookKey { token: q, price: req.price(), id: (ex.order_id_seq + 1) as u64 };
            &&& req.side() == OrderSide::Buy ==> next.bids@.contains(k)
            &&& req.side() == OrderSide::Sell ==> next.asks@.contains(k)
        }),
{
    let q = token_id_of(ex.tokens@, req.quote_key())->Some_0;
    let k = BookKey { token: q, price: req.price(), id: (ex.order_id_seq + 1) as u64 };
    let fs = ex.planned_fills(req, q);
    assert(token_id_of(ex.tokens@, req.quote_key()) is Some);
    assert(total_qty(fs) <= u128::MAX);
    lemma_totals_nonneg(fs);
    assert(total_qty(fs) == 0);
    assert(tif_status(req, total_qty(fs), crate::engine::leftover(req, fs)) == Ok::<OrderStatus, ContractError>(OrderStatus::Created));
    if req.side() == OrderSide::Buy {
        let pos = choose|pos: int| 0 <= pos <= ex.bids@.len() && next.bids@ == ex.bids@.insert(pos, k);
        assert(next.bids@[pos] == k);
    } else {
        let pos = choose|pos: int| 0 <= pos <= ex.asks@.len() && next.asks@ == ex.asks@.insert(pos, k);
        assert(next.asks@[pos] == k);
    }
}

} // verus!
