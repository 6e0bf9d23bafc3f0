use vstd::prelude::*;
use crate::book::{insert_key, lemma_open_keys_sorted, open_keys, order_of, retain_open, sorted_by_priority, BookKey};
use crate::error::ContractError;
use crate::ledger::{after_credits, credit_map, Credit, Ledger};
use crate::matching::{fills_ok, funds_fills, lemma_totals_nonneg, plan_by_funds, plan_by_qty, qty_fills, resting_ok, sum_qty, total_cost, total_qty, Fill};
use crate::models::{Order, OrderKind, OrderSide, OrderStatus, TimeInForce};
use crate::msg::OrderRequest;

verus! {

/// Id of the base token, the asset that orders buy and sell.
pub const BASE_TOKEN_ID: u32 = 1;

/// A registered token: its key and its id.
#[derive(Debug)]
pub struct TokenEntry {
    pub key: String,
    pub id: u32,
}

/// The id under which `key` was last registered.
pub open spec fn token_id_of(s: Seq<TokenEntry>, key: Seq<char>) -> Option<u32>
    decreases s.len(),
{
    if s.len() == 0 {
        None
    } else if s.last().key@ == key {
        Some(s.last().id)
    } else {
        token_id_of(s.drop_last(), key)
    }
}

/// A book side is in good order: sorted by priority, and each key names an
/// open limit order of that side at the key's token and price.
pub open spec fn book_ok(side: OrderSide, keys: Seq<BookKey>, orders: Seq<Order>) -> bool {
    &&& sorted_by_priority(side, keys)
    &&& forall|i: int| 0 <= i < keys.len() ==> 1 <= #[trigger] keys[i].id <= orders.len()
    &&& forall|i: int| 0 <= i < keys.len() ==> {
        let o = #[trigger] order_of(orders, keys[i]);
        &&& o.side == side
        &&& o.kind == OrderKind::Limit
        &&& o.quote_token == keys[i].token
        &&& o.limit_price == keys[i].price
        &&& o.qty_matched < o.qty_requested
        &&& (o.status == OrderStatus::Created || o.status == OrderStatus::Partial)
    }
}

/// The order stored at index `i` carries id `i + 1`; an order that asks for
/// a quantity never matches more, and is filled once it matched all of it.
pub open spec fn order_ok(o: Order, i: int) -> bool {
    &&& o.id is Some && o.id->Some_0 == i + 1
    &&& o.balance <= o.funds
    &&& (o.kind == OrderKind::Limit || o.side == OrderSide::Sell) ==> {
        &&& o.qty_matched <= o.qty_requested
        &&& (o.qty_matched == o.qty_requested ==> o.status == OrderStatus::Filled)
    }
}

/// The order after a trade of `qty` units against it.
pub open spec fn fill_order(o: Order, qty: u128) -> Order {
    let m = (o.qty_matched + qty) as u128;
    Order {
        qty_matched: m,
        status: if m == o.qty_requested { OrderStatus::Filled } else { OrderStatus::Partial },
        ..o
    }
}

/// The orders after the fills, applied one after another.
pub open spec fn apply_fills(orders: Seq<Order>, fills: Seq<Fill>) -> Seq<Order>
    decreases fills.len(),
{
    if fills.len() == 0 {
        orders
    } else {
        let prev = apply_fills(orders, fills.drop_last());
        let f = fills.last();
        prev.update(f.id - 1, fill_order(prev[f.id - 1], f.qty))
    }
}

/// An order is either untouched, or a resting order of `side` that traded:
/// only its matched quantity and status changed, as a trade changes them.
pub open spec fn touched_ok(o: Order, n: Order, side: OrderSide) -> bool {
    n == o || {
        &&& n == Order { qty_matched: n.qty_matched, status: n.status, ..o }
        &&& o.side == side
        &&& o.qty_matched <= n.qty_matched <= o.qty_requested
        &&& (n.status == OrderStatus::Filled <==> n.qty_matched == n.qty_requested)
        &&& (n.status == OrderStatus::Filled || n.status == OrderStatus::Partial)
    }
}

/// What a resting order's owner receives for one fill: quote units at the
/// fill's price where it sold, base units where it bought.
pub open spec fn fill_credit(orders: Seq<Order>, f: Fill, buy: bool, quote: u32) -> Credit {
    let o = orders[f.id - 1];
    if buy {
        Credit { account: o.owner@, token: quote, amount: f.qty * f.price }
    } else {
        Credit { account: o.owner@, token: BASE_TOKEN_ID, amount: f.qty as int }
    }
}

/// Every credit of a submission, in order: one per fill to the resting
/// order's owner, then one to the submitter (base units bought, or quote
/// units earned).
pub open spec fn settlement(orders: Seq<Order>, fills: Seq<Fill>, buy: bool, owner: Seq<char>, quote: u32) -> Seq<Credit> {
    Seq::new(fills.len(), |j: int| fill_credit(orders, fills[j], buy, quote)).push(
        if buy {
            Credit { account: owner, token: BASE_TOKEN_ID, amount: total_qty(fills) }
        } else {
            Credit { account: owner, token: quote, amount: total_cost(fills) }
        },
    )
}

/// Status of the submitted order after matching, or why it is refused.
/// `left` is the part of a market buy's funds that was not spent.
pub open spec fn tif_status(req: OrderRequest, matched: int, left: int) -> Result<OrderStatus, ContractError> {
    match req {
        OrderRequest::MarketBuy { tif, .. } => match tif {
            TimeInForce::Gtc => Err(ContractError::TimeInForceNotAllowed),
            TimeInForce::Fok => if left != 0 {
                Err(ContractError::InsufficientLiquidity)
            } else {
                Ok(OrderStatus::Filled)
            },
            TimeInForce::Ioc => if matched == 0 {
                Err(ContractError::InsufficientLiquidity)
            } else if left == 0 {
                Ok(OrderStatus::Filled)
            } else {
                Ok(OrderStatus::Matched)
            },
        },
        OrderRequest::MarketSell { qty, tif, .. } => match tif {
            TimeInForce::Gtc => Err(ContractError::TimeInForceNotAllowed),
            _ => qty_status(tif, matched, qty as int),
        },
        OrderRequest::LimitBuy { qty, tif, .. } => qty_status(tif, matched, qty as int),
        OrderRequest::LimitSell { qty, tif, .. } => qty_status(tif, matched, qty as int),
    }
}

/// Time-in-force for an order that asks for `qty` units.
pub open spec fn qty_status(tif: TimeInForce, matched: int, qty: int) -> Result<OrderStatus, ContractError> {
    match tif {
        TimeInForce::Fok => if matched != qty {
            Err(ContractError::InsufficientLiquidity)
        } else {
            Ok(OrderStatus::Filled)
        },
        TimeInForce::Ioc => if matched == 0 {
            Err(ContractError::InsufficientLiquidity)
        } else if matched == qty {
            Ok(OrderStatus::Filled)
        } else {
            Ok(OrderStatus::Matched)
        },
        TimeInForce::Gtc => if matched == qty {
            Ok(OrderStatus::Filled)
        } else if matched != 0 {
            Ok(OrderStatus::Partial)
        } else {
            Ok(OrderStatus::Created)
        },
    }
}

pub fn resolve_tif(req: &OrderRequest, matched: u128, left: u128) -> (r: Result<OrderStatus, ContractError>)
    ensures
        r == tif_status(*req, matched as int, left as int),
{
    match req {
        OrderRequest::MarketBuy { tif, .. } => match tif {
            TimeInForce::Gtc => Err(ContractError::TimeInForceNotAllowed),
            TimeInForce::Fok => if left != 0 {
                Err(ContractError::InsufficientLiquidity)
            } else {
                Ok(OrderStatus::Filled)
            },
            TimeInForce::Ioc => if matched == 0 {
                Err(ContractError::InsufficientLiquidity)
            } else if left == 0 {
                Ok(OrderStatus::Filled)
            } else {
                Ok(OrderStatus::Matched)
            },
        },
        OrderRequest::MarketSell { qty, tif, .. } => match tif {
            TimeInForce::Gtc => Err(ContractError::TimeInForceNotAllowed),
            _ => resolve_qty_tif(*tif, matched, *qty),
        },
        OrderRequest::LimitBuy { qty, tif, .. } => resolve_qty_tif(*tif, matched, *qty),
        OrderRequest::LimitSell { qty, tif, .. } => resolve_qty_tif(*tif, matched, *qty),
    }
}

fn resolve_qty_tif(tif: TimeInForce, matched: u128, qty: u128) -> (r: Result<OrderStatus, ContractError>)
    ensures
        r == qty_status(tif, matched as int, qty as int),
{
    match tif {
        TimeInForce::Fok => if matched != qty {
            Err(ContractError::InsufficientLiquidity)
        } else {
            Ok(OrderStatus::Filled)
        },
        TimeInForce::Ioc => if matched == 0 {
            Err(ContractError::InsufficientLiquidity)
        } else if matched == qty {
            Ok(OrderStatus::Filled)
        } else {
            Ok(OrderStatus::Matched)
        },
        TimeInForce::Gtc => if matched == qty {
            Ok(OrderStatus::Filled)
        } else if matched != 0 {
            Ok(OrderStatus::Partial)
        } else {
            Ok(OrderStatus::Created)
        },
    }
}

fn with_fill(o: &Order, qty: u128) -> (r: Order)
    requires
        o.qty_matched + qty <= u128::MAX,
    ensures
        r == fill_order(*o, qty),
{
    let m = o.qty_matched + qty;
    Order {
        id: o.id,
        owner: o.owner.clone(),
        created_at: o.created_at,
        quote_token: o.quote_token,
        side: o.side,
        kind: o.kind,
        tif: o.tif,
        status: if m == o.qty_requested { OrderStatus::Filled } else { OrderStatus::Partial },
        balance: o.balance,
        funds: o.funds,
        qty_matched: m,
        qty_requested: o.qty_requested,
        limit_price: o.limit_price,
    }
}

/// Applies the fills to the resting orders they name.
fn apply_fills_to(orders: &mut Vec<Order>, fills: &Vec<Fill>, side: OrderSide)
    requires
        fills_ok(fills@, old(orders)@, side),
    ensures
        final(orders)@ == apply_fills(old(orders)@, fills@),
        final(orders)@.len() == old(orders)@.len(),
        forall|i: int| 0 <= i < old(orders)@.len() ==> touched_ok(old(orders)@[i], #[trigger] final(orders)@[i], side),
{
    let ghost start = orders@;
    let mut j: usize = 0;
    assert(fills@.take(0) =~= Seq::<Fill>::empty());
    while j < fills.len()
        invariant
            fills_ok(fills@, start, side),
            j <= fills@.len(),
            orders@ == apply_fills(start, fills@.take(j as int)),
            orders@.len() == start.len(),
            forall|i: int| 0 <= i < start.len() ==> touched_ok(start[i], #[trigger] orders@[i], side),
            forall|t: int| j <= t < fills@.len() ==> orders@[#[trigger] fills@[t].id - 1] == start[fills@[t].id - 1],
        decreases fills@.len() - j,
    {
        let f = fills[j];
        let n: usize = orders.len();
        assert(1 <= fills@[j as int].id <= n);
        let idx: usize = (f.id - 1) as usize;
        assert(orders@[idx as int] == start[idx as int]);
        let updated = with_fill(&orders[idx], f.qty);
        let ghost before = orders@;
        orders.set(idx, updated);
        proof {
            assert(fills@.take(j + 1).drop_last() =~= fills@.take(j as int));
            assert(fills@.take(j + 1).last() == f);
            assert forall|t: int| j + 1 <= t < fills@.len() implies orders@[#[trigger] fills@[t].id - 1] == start[fills@[t].id - 1] by {
                assert(fills@[t].id != fills@[j as int].id);
                assert(orders@[fills@[t].id - 1] == before[fills@[t].id - 1]);
            }
            assert forall|i: int| 0 <= i < start.len() implies touched_ok(start[i], #[trigger] orders@[i], side) by {
                if i != idx {
                    assert(orders@[i] == before[i]);
                }
            }
        }
        j += 1;
    }
    assert(fills@.take(j as int) =~= fills@);
}

/// Credits the settlement of a submission to `ledger`; fails where a credit
/// overflows, and the caller then drops the ledger.
fn settle(
    ledger: &mut Ledger,
    orders: &Vec<Order>,
    fills: &Vec<Fill>,
    buy: bool,
    owner: &String,
    quote: u32,
    matched: u128,
) -> (r: Result<(), ContractError>)
    requires
        old(ledger).wf(),
        matched == total_qty(fills@),
        forall|j: int| 0 <= j < fills@.len() ==> 1 <= #[trigger] fills@[j].id <= orders@.len(),
    ensures
        final(ledger).wf(),
        r is Ok <==> after_credits(old(ledger).view(), settlement(orders@, fills@, buy, owner@, quote)) is Some,
        r is Ok ==> after_credits(old(ledger).view(), settlement(orders@, fills@, buy, owner@, quote)) == Some(final(ledger).view()),
        r is Err ==> r == Err::<(), ContractError>(ContractError::Overflow),
{
    let ghost cs = settlement(orders@, fills@, buy, owner@, quote);
    let ghost m0 = ledger.view();
    let mut j: usize = 0;
    assert(cs.skip(0) =~= cs);
    while j < fills.len()
        invariant
            ledger.wf(),
            m0 == old(ledger).view(),
            matched == total_qty(fills@),
            j <= fills@.len(),
            cs == settlement(orders@, fills@, buy, owner@, quote),
            cs.len() == fills@.len() + 1,
            after_credits(ledger.view(), cs.skip(j as int)) == after_credits(m0, cs),
            forall|t: int| 0 <= t < fills@.len() ==> 1 <= #[trigger] fills@[t].id <= orders@.len(),
        decreases fills@.len() - j,
    {
        let f = fills[j];
        let n: usize = orders.len();
        assert(1 <= fills@[j as int].id <= n);
        let idx: usize = (f.id - 1) as usize;
        let o = &orders[idx];
        let ghost rest = cs.skip(j as int);
        assert(rest[0] == cs[j as int]);
        assert(rest.drop_first() =~= cs.skip(j + 1));
        assert(cs[j as int] == fill_credit(orders@, f, buy, quote));
        let ghost c = cs[j as int];
        let ghost v0 = ledger.view();
        assert(after_credits(v0, rest) == match credit_map(v0, c) {
            Some(m2) => after_credits(m2, cs.skip(j + 1)),
            None => None,
        });
        if buy {
            match f.qty.checked_mul(f.price) {
                Some(a) => {
                    assert(c == Credit { account: o.owner@, token: quote, amount: a as int });
                    if ledger.credit(&o.owner, quote, a).is_err() {
                        assert(credit_map(v0, c) is None);
                        assert(after_credits(v0, rest) is None);
                        return Err(ContractError::Overflow);
                    }
                },
                None => {
                    assert(c.amount > u128::MAX);
                    assert(credit_map(v0, c) is None);
                    return Err(ContractError::Overflow);
                },
            }
        } else {
            assert(c == Credit { account: o.owner@, token: BASE_TOKEN_ID, amount: f.qty as int });
            if ledger.credit(&o.owner, BASE_TOKEN_ID, f.qty).is_err() {
                return Err(ContractError::Overflow);
            }
        }
        j += 1;
    }
    let ghost rest = cs.skip(j as int);
    assert(rest[0] == cs[fills@.len() as int]);
    assert(rest.drop_first().len() == 0);
    let ghost c = cs[fills@.len() as int];
    let ghost v0 = ledger.view();
    assert(after_credits(v0, rest) == match credit_map(v0, c) {
        Some(m2) => after_credits(m2, rest.drop_first()),
        None => None,
    });
    if buy {
        assert(c == Credit { account: owner@, token: BASE_TOKEN_ID, amount: matched as int });
        if ledger.credit(owner, BASE_TOKEN_ID, matched).is_err() {
            return Err(ContractError::Overflow);
        }
    } else {
        match crate::matching::sum_cost(fills) {
            Some(cost) => {
                assert(c == Credit { account: owner@, token: quote, amount: cost as int });
                if ledger.credit(owner, quote, cost).is_err() {
                    return Err(ContractError::Overflow);
                }
            },
            None => {
                return Err(ContractError::Overflow);
            },
        }
    }
    Ok(())
}

/// Where the submitted order ends up on its own side of the book: inserted
/// where priority puts it if it rests, else nowhere.
pub open spec fn own_side_after(before: Seq<BookKey>, after: Seq<BookKey>, o: Order) -> bool {
    if rests(o) {
        exists|pos: int|
            0 <= pos <= before.len() && after == before.insert(
                pos,
                BookKey { token: o.quote_token, price: o.limit_price, id: o.id->Some_0 },
            )
    } else {
        after == before
    }
}

/// A limit order rests while it is neither filled nor settled at once.
pub open spec fn rests(o: Order) -> bool {
    o.kind == OrderKind::Limit && (o.status == OrderStatus::Created || o.status == OrderStatus::Partial)
}

/// Unspent funds of a market buy; zero for other orders.
pub open spec fn leftover(req: OrderRequest, fills: Seq<Fill>) -> int {
    match req {
        OrderRequest::MarketBuy { balance, .. } => balance - total_cost(fills),
        _ => 0,
    }
}

/// The record of a submitted order after matching.
pub open spec fn placed_order(
    req: OrderRequest,
    owner: String,
    time: u64,
    id: u64,
    quote: u32,
    fills: Seq<Fill>,
    status: OrderStatus,
) -> Order {
    Order {
        id: Some(id),
        owner,
        created_at: time,
        quote_token: quote,
        side: req.side(),
        kind: req.kind(),
        tif: req.tif(),
        status,
        balance: leftover(req, fills) as u128,
        funds: req.funds(),
        qty_matched: total_qty(fills) as u128,
        qty_requested: req.qty(),
        limit_price: req.price(),
    }
}

/// A store of orders, the two sides of the book, the balance ledger, the
/// token registry and the two id counters.
pub struct Exchange {
    /// Order `id` is stored at index `id - 1`.
    pub orders: Vec<Order>,
    /// Resting buy orders, best (highest) price first.
    pub bids: Vec<BookKey>,
    /// Resting sell orders, best (lowest) price first.
    pub asks: Vec<BookKey>,
    pub ledger: Ledger,
    pub tokens: Vec<TokenEntry>,
    pub order_id_seq: u64,
    pub token_id_seq: u32,
}

/// The key under which id `id` was last registered.
pub open spec fn token_key_of(s: Seq<TokenEntry>, id: u32) -> Option<Seq<char>>
    decreases s.len(),
{
    if s.len() == 0 {
        None
    } else if s.last().id == id {
        Some(s.last().key@)
    } else {
        token_key_of(s.drop_last(), id)
    }
}

/// A side in good order names each order at most once.
proof fn lemma_book_resting(side: OrderSide, keys: Seq<BookKey>, orders: Seq<Order>)
    requires
        book_ok(side, keys, orders),
    ensures
        resting_ok(keys, orders, side),
{
    assert forall|i: int, j: int| 0 <= i < j < keys.len() implies #[trigger] keys[i].id != #[trigger] keys[j].id by {
        assert(crate::book::precedes(side, keys[i], keys[j]));
        if keys[i].id == keys[j].id {
            assert(order_of(orders, keys[i]) == order_of(orders, keys[j]));
            assert(keys[i] == keys[j]);
        }
    }
}

/// The side that traded keeps the keys of the orders still open, and stays
/// in good order.
proof fn lemma_traded_side(side: OrderSide, keys: Seq<BookKey>, orders: Seq<Order>, traded: Seq<Order>, fin: Seq<Order>)
    requires
        book_ok(side, keys, orders),
        traded.len() == orders.len(),
        forall|i: int| 0 <= i < orders.len() ==> touched_ok(orders[i], #[trigger] traded[i], side),
        fin.len() >= traded.len(),
        forall|i: int| 0 <= i < traded.len() ==> fin[i] == traded[i],
    ensures
        book_ok(side, open_keys(keys, traded), fin),
{
    lemma_open_keys_sorted(side, keys, traded);
    let kept = open_keys(keys, traded);
    assert forall|i: int| 0 <= i < kept.len() implies 1 <= #[trigger] kept[i].id <= fin.len() && {
        let o = order_of(fin, kept[i]);
        &&& o.side == side
        &&& o.kind == OrderKind::Limit
        &&& o.quote_token == kept[i].token
        &&& o.limit_price == kept[i].price
        &&& o.qty_matched < o.qty_requested
        &&& (o.status == OrderStatus::Created || o.status == OrderStatus::Partial)
    } by {
        let x = kept[i];
        assert(kept.contains(x));
        assert(keys.contains(x));
        let j = choose|j: int| 0 <= j < keys.len() && keys[j] == x;
        assert(1 <= keys[j].id <= orders.len());
        let before = order_of(orders, keys[j]);
        assert(touched_ok(orders[x.id - 1], traded[x.id - 1], side));
        assert(fin[x.id - 1] == traded[x.id - 1]);
    }
}

/// A side that did not trade is still in good order after the trade.
proof fn lemma_quiet_side(side: OrderSide, opp: OrderSide, keys: Seq<BookKey>, orders: Seq<Order>, traded: Seq<Order>, fin: Seq<Order>)
    requires
        book_ok(side, keys, orders),
        side != opp,
        traded.len() == orders.len(),
        forall|i: int| 0 <= i < orders.len() ==> touched_ok(orders[i], #[trigger] traded[i], opp),
        fin.len() >= traded.len(),
        forall|i: int| 0 <= i < traded.len() ==> fin[i] == traded[i],
    ensures
        book_ok(side, keys, fin),
        forall|i: int| 0 <= i < keys.len() ==> order_of(fin, #[trigger] keys[i]) == order_of(orders, keys[i]),
{
    assert forall|i: int| 0 <= i < keys.len() implies order_of(fin, #[trigger] keys[i]) == order_of(orders, keys[i]) by {
        let x = keys[i];
        assert(1 <= x.id <= orders.len());
        assert(touched_ok(orders[x.id - 1], traded[x.id - 1], opp));
        assert(order_of(orders, keys[i]).side == side);
    }
}

/// Inserting the key of an open limit order of `side` keeps the side in
/// good order.
proof fn lemma_rest_side(side: OrderSide, keys: Seq<BookKey>, pos: int, k: BookKey, fin: Seq<Order>)
    requires
        book_ok(side, keys, fin),
        0 <= pos <= keys.len(),
        sorted_by_priority(side, keys.insert(pos, k)),
        1 <= k.id <= fin.len(),
        ({
            let o = order_of(fin, k);
            &&& o.side == side
            &&& o.kind == OrderKind::Limit
            &&& o.quote_token == k.token
            &&& o.limit_price == k.price
            &&& o.qty_matched < o.qty_requested
            &&& (o.status == OrderStatus::Created || o.status == OrderStatus::Partial)
        }),
    ensures
        book_ok(side, keys.insert(pos, k), fin),
{
    let s = keys.insert(pos, k);
    assert forall|i: int| 0 <= i < s.len() implies 1 <= #[trigger] s[i].id <= fin.len() && {
        let o = order_of(fin, s[i]);
        &&& o.side == side
        &&& o.kind == OrderKind::Limit
        &&& o.quote_token == s[i].token
        &&& o.limit_price == s[i].price
        &&& o.qty_matched < o.qty_requested
        &&& (o.status == OrderStatus::Created || o.status == OrderStatus::Partial)
    } by {
        if i < pos {
            assert(s[i] == keys[i]);
        } else if i > pos {
            assert(s[i] == keys[i - 1]);
        }
    }
}

/// A field-by-field copy of an order.
pub(crate) fn copy_order(o: &Order) -> (r: Order)
    ensures
        r == *o,
{
    Order {
        id: o.id,
        owner: o.owner.clone(),
        created_at: o.created_at,
        quote_token: o.quote_token,
        side: o.side,
        kind: o.kind,
        tif: o.tif,
        status: o.status,
        balance: o.balance,
        funds: o.funds,
        qty_matched: o.qty_matched,
        qty_requested: o.qty_requested,
        limit_price: o.limit_price,
    }
}

impl Exchange {
    /// Matches `owner`'s request against the book, settles every fill, and
    /// records the new order; returns that order. A refused request changes
    /// nothing.
    pub fn submit(&mut self, owner: &String, created_at: u64, req: &OrderRequest) -> (r: Result<Order, ContractError>)
        requires
            old(self).wf(),
        ensures
            final(self).wf(),
            r is Err <==> old(self).refusal(owner@, *req) is Some,
            r matches Err(e) ==> old(self).refusal(owner@, *req) == Some(e) && *final(self) == *old(self),
            r matches Ok(o) ==> old(self).accepted(*final(self), *owner, created_at, *req, o),
    {
        let q = match self.load_token_id(req.quote()) {
            Ok(q) => q,
            Err(e) => return Err(e),
        };
        let (side, kind, tif, qty, price, funds) = req.parts();
        match (kind, tif) {
            (OrderKind::Market, TimeInForce::Gtc) => return Err(ContractError::TimeInForceNotAllowed),
            _ => {},
        }
        if self.order_id_seq == u64::MAX {
            return Err(ContractError::Overflow);
        }
        let id = self.order_id_seq + 1;
        proof {
            lemma_book_resting(OrderSide::Sell, self.asks@, self.orders@);
            lemma_book_resting(OrderSide::Buy, self.bids@, self.orders@);
        }
        let buy = match side {
            OrderSide::Buy => true,
            OrderSide::Sell => false,
        };
        let (fills, left) = match req {
            OrderRequest::MarketBuy { balance, .. } => plan_by_funds(&self.asks, &self.orders, OrderSide::Sell, q, *balance),
            OrderRequest::MarketSell { qty, .. } => (plan_by_qty(&self.bids, &self.orders, OrderSide::Buy, q, None, *qty), 0),
            OrderRequest::LimitBuy { qty, price, .. } => (plan_by_qty(&self.asks, &self.orders, OrderSide::Sell, q, Some(*price), *qty), 0),
            OrderRequest::LimitSell { qty, price, .. } => (plan_by_qty(&self.bids, &self.orders, OrderSide::Buy, q, Some(*price), *qty), 0),
        };
        let ghost opp = if buy { OrderSide::Sell } else { OrderSide::Buy };
        assert(fills@ == self.planned_fills(*req, q));
        assert(fills_ok(fills@, self.orders@, opp));
        assert(left == leftover(*req, fills@));
        proof {
            lemma_totals_nonneg(fills@);
        }
        assert(req.kind() == OrderKind::Limit || req.side() == OrderSide::Sell ==> total_qty(fills@) <= qty);
        let matched = match sum_qty(&fills) {
            Some(m) => m,
            None => return Err(ContractError::Overflow),
        };
        let status = match resolve_tif(req, matched, left) {
            Ok(s) => s,
            Err(e) => return Err(e),
        };
        let mut staged = self.ledger.copy();
        match settle(&mut staged, &self.orders, &fills, buy, owner, q, matched) {
            Ok(()) => {},
            Err(e) => return Err(e),
        }
        // Nothing was written above: every refusal leaves the store as it was.
        // From here on nothing can fail.
        let ghost old_self = *self;
        let opp_side = if buy { OrderSide::Sell } else { OrderSide::Buy };
        apply_fills_to(&mut self.orders, &fills, opp_side);
        let ghost traded = self.orders@;
        let order = Order {
            id: Some(id),
            owner: owner.clone(),
            created_at,
            quote_token: q,
            side,
            kind,
            tif,
            status,
            balance: left,
            funds,
            qty_matched: matched,
            qty_requested: qty,
            limit_price: price,
        };
        if buy {
            self.asks = retain_open(&self.asks, &self.orders);
        } else {
            self.bids = retain_open(&self.bids, &self.orders);
        }
        let resting = match kind {
            OrderKind::Limit => match status {
                OrderStatus::Created | OrderStatus::Partial => true,
                _ => false,
            },
            OrderKind::Market => false,
        };
        let ghost mut ipos: int = 0;
        let ghost asks1 = self.asks@;
        let ghost bids1 = self.bids@;
        if resting {
            let key = BookKey { token: q, price, id };
            if buy {
                assert forall|i: int| 0 <= i < self.bids@.len() implies self.bids@[i] != key by {
                    assert(1 <= self.bids@[i].id <= old_self.orders@.len());
                }
                let pos = insert_key(OrderSide::Buy, &mut self.bids, key);
                proof { ipos = pos as int; }
            } else {
                assert forall|i: int| 0 <= i < self.asks@.len() implies self.asks@[i] != key by {
                    assert(1 <= self.asks@[i].id <= old_self.orders@.len());
                }
                let pos = insert_key(OrderSide::Sell, &mut self.asks, key);
                proof { ipos = pos as int; }
            }
        }
        self.orders.push(copy_order(&order));
        self.ledger = staged;
        self.order_id_seq = id;
        proof {
            let fin = self.orders@;
            let old_orders = old_self.orders@;
            assert forall|i: int| 0 <= i < traded.len() implies fin[i] == traded[i] by {}
            let k = BookKey { token: q, price, id };
            if buy {
                lemma_traded_side(OrderSide::Sell, old_self.asks@, old_orders, traded, fin);
                lemma_quiet_side(OrderSide::Buy, OrderSide::Sell, old_self.bids@, old_orders, traded, fin);
                if resting {
                    lemma_rest_side(OrderSide::Buy, old_self.bids@, ipos, k, fin);
                }
            } else {
                lemma_traded_side(OrderSide::Buy, old_self.bids@, old_orders, traded, fin);
                lemma_quiet_side(OrderSide::Sell, OrderSide::Buy, old_self.asks@, old_orders, traded, fin);
                if resting {
                    lemma_rest_side(OrderSide::Sell, old_self.asks@, ipos, k, fin);
                }
            }
            assert forall|i: int| 0 <= i < fin.len() implies order_ok(#[trigger] fin[i], i) by {
                if i < traded.len() {
                    assert(touched_ok(old_orders[i], traded[i], opp));
                    assert(order_ok(old_orders[i], i));
                } else {
                    assert(fin[i] == order);
                }
            }
            assert(order == placed_order(*req, *owner, created_at, id, q, fills@, status));
            assert(self.orders@ == traded.push(order));
            assert(rests(order) == resting);
            if buy {
                assert(self.asks@ == open_keys(old_self.asks@, traded));
                if resting {
                    let k = BookKey { token: order.quote_token, price: order.limit_price, id: order.id->Some_0 };
                    assert(0 <= ipos <= old_self.bids@.len() && self.bids@ == old_self.bids@.insert(ipos, k));
                }
                assert(own_side_after(old_self.bids@, self.bids@, order));
            } else {
                assert(self.bids@ == open_keys(old_self.bids@, traded));
                if resting {
                    let k = BookKey { token: order.quote_token, price: order.limit_price, id: order.id->Some_0 };
                    assert(0 <= ipos <= old_self.asks@.len() && self.asks@ == old_self.asks@.insert(ipos, k));
                }
                assert(own_side_after(old_self.asks@, self.asks@, order));
            }
        }
        Ok(order)
    }

    pub open spec fn wf(self) -> bool {
        &&& self.orders@.len() == self.order_id_seq
        &&& forall|i: int| 0 <= i < self.orders@.len() ==> order_ok(#[trigger] self.orders@[i], i)
        &&& book_ok(OrderSide::Sell, self.asks@, self.orders@)
        &&& book_ok(OrderSide::Buy, self.bids@, self.orders@)
        &&& self.ledger.wf()
    }

    /// The fills a request gets against the current book, given the id of its
    /// quote token: a buy takes asks, a sell takes bids, a limit order only
    /// those at its price.
    pub open spec fn planned_fills(self, req: OrderRequest, quote: u32) -> Seq<Fill> {
        match req {
            OrderRequest::MarketBuy { balance, .. } => funds_fills(self.asks@, self.orders@, quote, balance as int),
            OrderRequest::MarketSell { qty, .. } => qty_fills(self.bids@, self.orders@, quote, None, qty as int),
            OrderRequest::LimitBuy { qty, price, .. } => qty_fills(self.asks@, self.orders@, quote, Some(price), qty as int),
            OrderRequest::LimitSell { qty, price, .. } => qty_fills(self.bids@, self.orders@, quote, Some(price), qty as int),
        }
    }

    /// Why `owner`'s request is refused, if it is, in this order: the quote
    /// token is unknown, a market order asks for good-till-canceled, the
    /// order id counter is exhausted, the matched quantity does not fit, the
    /// time-in-force is not met, or a credit overflows.
    pub open spec fn refusal(self, owner: Seq<char>, req: OrderRequest) -> Option<ContractError> {
        match token_id_of(self.tokens@, req.quote_key()) {
            None => Some(ContractError::TokenNotAllowed),
            Some(q) => if req.kind() == OrderKind::Market && req.tif() == TimeInForce::Gtc {
                Some(ContractError::TimeInForceNotAllowed)
            } else if self.order_id_seq == u64::MAX {
                Some(ContractError::Overflow)
            } else {
                let fills = self.planned_fills(req, q);
                if total_qty(fills) > u128::MAX {
                    Some(ContractError::Overflow)
                } else {
                    match tif_status(req, total_qty(fills), leftover(req, fills)) {
                        Err(e) => Some(e),
                        Ok(_) => if after_credits(
                            self.ledger.view(),
                            settlement(self.orders@, fills, req.side() == OrderSide::Buy, owner, q),
                        ) is None {
                            Some(ContractError::Overflow)
                        } else {
                            None
                        },
                    }
                }
            },
        }
    }

    /// The request would be met in full: a market buy spends all its funds,
    /// any other order matches all the units it asks for.
    pub open spec fn fully_matched(self, req: OrderRequest) -> bool {
        match token_id_of(self.tokens@, req.quote_key()) {
            None => false,
            Some(q) => {
                let fills = self.planned_fills(req, q);
                match req {
                    OrderRequest::MarketBuy { .. } => leftover(req, fills) == 0,
                    _ => total_qty(fills) == req.qty(),
                }
            },
        }
    }

    /// `next` is this store after `owner`'s request was accepted, and `o` the
    /// order it placed.
    pub open spec fn accepted(self, next: Exchange, owner: String, time: u64, req: OrderRequest, o: Order) -> bool {
        let q = token_id_of(self.tokens@, req.quote_key())->Some_0;
        let fills = self.planned_fills(req, q);
        let status = tif_status(req, total_qty(fills), leftover(req, fills))->Ok_0;
        let id = (self.order_id_seq + 1) as u64;
        let traded = apply_fills(self.orders@, fills);
        &&& o == placed_order(req, owner, time, id, q, fills, status)
        &&& next.orders@ == traded.push(o)
        &&& if req.side() == OrderSide::Buy {
            next.asks@ == open_keys(self.asks@, traded) && own_side_after(self.bids@, next.bids@, o)
        } else {
            next.bids@ == open_keys(self.bids@, traded) && own_side_after(self.asks@, next.asks@, o)
        }
        &&& after_credits(self.ledger.view(), settlement(self.orders@, fills, req.side() == OrderSide::Buy, owner@, q))
            == Some(next.ledger.view())
        &&& next.order_id_seq == id
        &&& next.tokens@ == self.tokens@
        &&& next.token_id_seq == self.token_id_seq
    }

    /// An empty store: no orders, no tokens but the base token's id reserved.
    pub fn new() -> (r: Exchange)
        ensures
            r.wf(),
            r.orders@.len() == 0,
            r.bids@.len() == 0,
            r.asks@.len() == 0,
            r.tokens@.len() == 0,
            r.ledger.view() == Map::<crate::ledger::BalanceKey, u128>::empty(),
            r.order_id_seq == 0,
            r.token_id_seq == BASE_TOKEN_ID,
    {
        Exchange {
            orders: Vec::new(),
            bids: Vec::new(),
            asks: Vec::new(),
            ledger: Ledger::new(),
            tokens: Vec::new(),
            order_id_seq: 0,
            token_id_seq: BASE_TOKEN_ID,
        }
    }

    /// Registers a token under `token_id`, or under the next free id where
    /// none is given; a later registration of the same key replaces the
    /// earlier one. Returns the id.
    pub fn register_token(&mut self, key: &String, token_id: Option<u32>) -> (r: Result<u32, ContractError>)
        requires
            old(self).wf(),
        ensures
            final(self).wf(),
            final(self).orders == old(self).orders,
            final(self).bids == old(self).bids,
            final(self).asks == old(self).asks,
            final(self).ledger == old(self).ledger,
            final(self).order_id_seq == old(self).order_id_seq,
            token_id == None::<u32> && old(self).token_id_seq == u32::MAX <==> r is Err,
            r is Err ==> r == Err::<u32, ContractError>(ContractError::Overflow) && *final(self) == *old(self),
            r matches Ok(id) ==> {
                &&& token_id matches Some(t) ==> id == t && final(self).token_id_seq == old(self).token_id_seq
                &&& token_id is None ==> id == old(self).token_id_seq + 1 && final(self).token_id_seq == id
                &&& final(self).tokens@ == old(self).tokens@.push(TokenEntry { key: *key, id })
                &&& token_id_of(final(self).tokens@, key@) == Some(id)
            },
    {
        let id = match token_id {
            Some(t) => t,
            None => {
                if self.token_id_seq == u32::MAX {
                    return Err(ContractError::Overflow);
                }
                self.token_id_seq = self.token_id_seq + 1;
                self.token_id_seq
            },
        };
        let ghost before = self.tokens@;
        self.tokens.push(TokenEntry { key: key.clone(), id });
        assert(self.tokens@.drop_last() =~= before);
        Ok(id)
    }

    /// The order with id `id`, if there is one.
    pub fn get_order(&self, id: u64) -> (r: Option<&Order>)
        ensures
            r is Some <==> 1 <= id <= self.orders@.len(),
            r matches Some(o) ==> *o == self.orders@[id - 1],
    {
        if id >= 1 && id <= self.orders.len() as u64 {
            Some(&self.orders[(id - 1) as usize])
        } else {
            None
        }
    }

    /// The balance of `account` in token `token`; zero where never credited.
    pub fn balance(&self, account: &String, token: u32) -> (r: u128)
        requires
            self.wf(),
        ensures
            r == crate::ledger::amount_in(self.ledger.view(), (account@, token)),
    {
        self.ledger.amount(account, token)
    }

    /// The balance of `owner` in the token registered under `key`.
    pub fn load_token_amount(&self, owner: &String, key: &String) -> (r: Result<u128, ContractError>)
        requires
            self.wf(),
        ensures
            token_id_of(self.tokens@, key@) matches Some(q) ==> r == Ok::<u128, ContractError>(
                crate::ledger::amount_in(self.ledger.view(), (owner@, q)) as u128,
            ),
            token_id_of(self.tokens@, key@) is None ==> r == Err::<u128, ContractError>(ContractError::TokenNotAllowed),
    {
        let q = self.load_token_id(key)?;
        Ok(self.balance(owner, q))
    }

    /// Looks up the key of the quote token registered under `token_id`. The
    /// base token is not a quote token and is not found by id.
    pub fn load_token_by_id(&self, token_id: u32) -> (r: Result<String, ContractError>)
        ensures
            token_id != BASE_TOKEN_ID ==> (token_key_of(self.tokens@, token_id) matches Some(k) ==> r matches Ok(s) && s@ == k),
            token_id == BASE_TOKEN_ID || token_key_of(self.tokens@, token_id) is None
                ==> r == Err::<String, ContractError>(ContractError::TokenNotFound),
    {
        if token_id == BASE_TOKEN_ID {
            return Err(ContractError::TokenNotFound);
        }
        let mut found: Option<usize> = None;
        let mut i: usize = 0;
        while i < self.tokens.len()
            invariant
                i <= self.tokens@.len(),
                found is None ==> token_key_of(self.tokens@.take(i as int), token_id) is None,
                found matches Some(j) ==> j < i && token_key_of(self.tokens@.take(i as int), token_id) == Some(self.tokens@[j as int].key@),
            decreases self.tokens@.len() - i,
        {
            assert(self.tokens@.take(i + 1).drop_last() =~= self.tokens@.take(i as int));
            assert(self.tokens@.take(i + 1).last() == self.tokens@[i as int]);
            if self.tokens[i].id == token_id {
                found = Some(i);
            }
            i += 1;
        }
        assert(self.tokens@.take(i as int) =~= self.tokens@);
        match found {
            Some(j) => Ok(self.tokens[j].key.clone()),
            None => Err(ContractError::TokenNotFound),
        }
    }

    /// Looks up the id of a registered token.
    pub fn load_token_id(&self, key: &String) -> (r: Result<u32, ContractError>)
        ensures
            token_id_of(self.tokens@, key@) matches Some(q) ==> r == Ok::<u32, ContractError>(q),
            token_id_of(self.tokens@, key@) is None ==> r == Err::<u32, ContractError>(ContractError::TokenNotAllowed),
    {
        let mut found: Option<u32> = None;
        let mut i: usize = 0;
        while i < self.tokens.len()
            invariant
                i <= self.tokens@.len(),
                found == token_id_of(self.tokens@.take(i as int), key@),
            decreases self.tokens@.len() - i,
        {
            assert(self.tokens@.take(i + 1).drop_last() =~= self.tokens@.take(i as int));
            assert(self.tokens@.take(i + 1).last() == self.tokens@[i as int]);
            if self.tokens[i].key == *key {
                found = Some(self.tokens[i].id);
            }
            i += 1;
        }
        assert(self.tokens@.take(i as int) =~= self.tokens@);
        match found {
            Some(q) => Ok(q),
            None => Err(ContractError::TokenNotAllowed),
        }
    }
}

} // verus!
