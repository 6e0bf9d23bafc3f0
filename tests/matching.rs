use order_book::book::BookKey;
use order_book::engine::{Exchange, BASE_TOKEN_ID};
use order_book::error::ContractError;
use order_book::models::{OrderKind, OrderSide, OrderStatus, TimeInForce};
use order_book::msg::OrderRequest;

fn usd() -> String {
    "native:uusd".to_string()
}

fn market() -> (Exchange, u32) {
    let mut ex = Exchange::new();
    let q = ex.register_token(&usd(), None).unwrap();
    (ex, q)
}

fn limit_buy(qty: u128, price: u128, tif: TimeInForce) -> OrderRequest {
    OrderRequest::LimitBuy { quote: usd(), qty, price, tif }
}

fn limit_sell(qty: u128, price: u128, tif: TimeInForce) -> OrderRequest {
    OrderRequest::LimitSell { quote: usd(), qty, price, tif }
}

fn acct(s: &str) -> String {
    s.to_string()
}

#[test]
fn limit_gtc_rests_then_partially_fills() {
    let (mut ex, q) = market();
    let buyer = acct("alice");
    let seller = acct("bob");
    let b = ex.submit(&buyer, 1, &limit_buy(10, 100, TimeInForce::Gtc)).unwrap();
    assert_eq!(b.status, OrderStatus::Created);
    assert_eq!(b.qty_matched, 0);
    assert_eq!(b.id, Some(1));
    assert_eq!(ex.bids, vec![BookKey { token: q, price: 100, id: 1 }]);

    let s = ex.submit(&seller, 2, &limit_sell(4, 100, TimeInForce::Gtc)).unwrap();
    assert_eq!(s.status, OrderStatus::Filled);
    assert_eq!(s.qty_matched, 4);
    let b = ex.get_order(1).unwrap();
    assert_eq!(b.status, OrderStatus::Partial);
    assert_eq!(b.qty_matched, 4);
    assert_eq!(b.get_qty_unmatched(), 6);
    assert_eq!(ex.bids, vec![BookKey { token: q, price: 100, id: 1 }]);
    assert!(ex.asks.is_empty());
    assert_eq!(ex.balance(&seller, q), 400);
    assert_eq!(ex.balance(&buyer, BASE_TOKEN_ID), 4);
    assert_eq!(ex.balance(&buyer, q), 0);
    assert_eq!(ex.balance(&seller, BASE_TOKEN_ID), 0);
}

#[test]
fn market_buy_spends_what_it_can() {
    let (mut ex, q) = market();
    let seller = acct("bob");
    let buyer = acct("carol");
    ex.submit(&seller, 1, &limit_sell(5, 100, TimeInForce::Gtc)).unwrap();
    let req = OrderRequest::MarketBuy { quote: usd(), balance: 250, tif: TimeInForce::Ioc };
    let o = ex.submit(&buyer, 2, &req).unwrap();
    assert_eq!(o.qty_matched, 2);
    assert_eq!(o.balance, 50);
    assert_eq!(o.funds, 250);
    assert_eq!(o.get_balance_remaining(), 200);
    assert_eq!(o.status, OrderStatus::Matched);
    assert_eq!(o.kind, OrderKind::Market);
    assert_eq!(o.limit_price, 0);
    let ask = ex.get_order(1).unwrap();
    assert_eq!(ask.status, OrderStatus::Partial);
    assert_eq!(ask.qty_matched, 2);
    assert_eq!(ex.balance(&seller, q), 200);
    assert_eq!(ex.balance(&buyer, BASE_TOKEN_ID), 2);
}

#[test]
fn same_price_fills_oldest_first() {
    let (mut ex, q) = market();
    for (i, who) in ["s1", "s2", "s3"].iter().enumerate() {
        ex.submit(&acct(who), i as u64, &limit_sell(3, 50, TimeInForce::Gtc)).unwrap();
    }
    let o = ex.submit(&acct("b"), 9, &limit_buy(4, 50, TimeInForce::Ioc)).unwrap();
    assert_eq!(o.qty_matched, 4);
    assert_eq!(o.status, OrderStatus::Filled);
    assert_eq!(ex.get_order(1).unwrap().status, OrderStatus::Filled);
    assert_eq!(ex.get_order(2).unwrap().qty_matched, 1);
    assert_eq!(ex.get_order(2).unwrap().status, OrderStatus::Partial);
    assert_eq!(ex.get_order(3).unwrap().qty_matched, 0);
    assert_eq!(ex.get_order(3).unwrap().status, OrderStatus::Created);
    assert_eq!(ex.asks, vec![BookKey { token: q, price: 50, id: 2 }, BookKey { token: q, price: 50, id: 3 }]);
    assert_eq!(ex.balance(&acct("s1"), q), 150);
    assert_eq!(ex.balance(&acct("s2"), q), 50);
    assert_eq!(ex.balance(&acct("s3"), q), 0);
    assert_eq!(ex.balance(&acct("b"), BASE_TOKEN_ID), 4);
}

#[test]
fn fok_shortfall_changes_nothing() {
    let (mut ex, q) = market();
    ex.submit(&acct("s"), 1, &limit_sell(3, 10, TimeInForce::Gtc)).unwrap();
    let asks = ex.asks.clone();
    let r = ex.submit(&acct("b"), 2, &limit_buy(5, 10, TimeInForce::Fok));
    assert_eq!(r, Err(ContractError::InsufficientLiquidity));
    assert_eq!(ex.asks, asks);
    assert!(ex.bids.is_empty());
    assert_eq!(ex.orders.len(), 1);
    assert_eq!(ex.order_id_seq, 1);
    assert_eq!(ex.get_order(1).unwrap().qty_matched, 0);
    assert_eq!(ex.balance(&acct("s"), q), 0);
    assert_eq!(ex.balance(&acct("b"), BASE_TOKEN_ID), 0);

    let req = OrderRequest::MarketBuy { quote: usd(), balance: 35, tif: TimeInForce::Fok };
    assert_eq!(ex.submit(&acct("b"), 3, &req), Err(ContractError::InsufficientLiquidity));
    assert_eq!(ex.asks, asks);
    assert_eq!(ex.orders.len(), 1);
}

#[test]
fn fok_filled_in_full() {
    let (mut ex, q) = market();
    ex.submit(&acct("s"), 1, &limit_sell(3, 10, TimeInForce::Gtc)).unwrap();
    let req = OrderRequest::MarketBuy { quote: usd(), balance: 30, tif: TimeInForce::Fok };
    let o = ex.submit(&acct("b"), 2, &req).unwrap();
    assert_eq!(o.status, OrderStatus::Filled);
    assert_eq!(o.balance, 0);
    assert_eq!(o.qty_matched, 3);
    assert!(ex.asks.is_empty());
    assert_eq!(ex.balance(&acct("s"), q), 30);
}

#[test]
fn ioc_partial_discards_remainder() {
    let (mut ex, q) = market();
    ex.submit(&acct("s"), 1, &limit_sell(3, 10, TimeInForce::Gtc)).unwrap();
    ex.submit(&acct("t"), 2, &limit_sell(2, 20, TimeInForce::Gtc)).unwrap();
    let o = ex.submit(&acct("b"), 3, &limit_buy(5, 10, TimeInForce::Ioc)).unwrap();
    assert_eq!(o.status, OrderStatus::Matched);
    assert_eq!(o.qty_matched, 3);
    assert!(ex.bids.is_empty());
    assert_eq!(ex.asks, vec![BookKey { token: q, price: 20, id: 2 }]);
    assert_eq!(ex.get_order(2).unwrap().qty_matched, 0);
    assert_eq!(ex.balance(&acct("s"), q), 30);
    assert_eq!(ex.balance(&acct("t"), q), 0);
    assert_eq!(ex.balance(&acct("b"), BASE_TOKEN_ID), 3);
}

#[test]
fn ioc_without_match_is_refused() {
    let (mut ex, _q) = market();
    let r = ex.submit(&acct("b"), 1, &limit_buy(5, 10, TimeInForce::Ioc));
    assert_eq!(r, Err(ContractError::InsufficientLiquidity));
    assert!(ex.orders.is_empty());
    let r = ex.submit(&acct("b"), 1, &OrderRequest::MarketSell { quote: usd(), qty: 1, tif: TimeInForce::Ioc });
    assert_eq!(r, Err(ContractError::InsufficientLiquidity));
}

#[test]
fn gtc_unmatched_rests_and_is_found_later() {
    let (mut ex, q) = market();
    ex.submit(&acct("s"), 1, &limit_sell(3, 10, TimeInForce::Gtc)).unwrap();
    let o = ex.submit(&acct("b"), 2, &limit_buy(2, 9, TimeInForce::Gtc)).unwrap();
    assert_eq!(o.status, OrderStatus::Created);
    assert_eq!(ex.bids, vec![BookKey { token: q, price: 9, id: 2 }]);
    let s = ex.submit(&acct("u"), 3, &limit_sell(1, 9, TimeInForce::Ioc)).unwrap();
    assert_eq!(s.status, OrderStatus::Filled);
    assert_eq!(ex.get_order(2).unwrap().qty_matched, 1);
    assert_eq!(ex.balance(&acct("u"), q), 9);
    assert_eq!(ex.balance(&acct("b"), BASE_TOKEN_ID), 1);
}

#[test]
fn limit_matches_only_its_own_price() {
    let (mut ex, q) = market();
    ex.submit(&acct("s"), 1, &limit_sell(3, 9, TimeInForce::Gtc)).unwrap();
    let o = ex.submit(&acct("b"), 2, &limit_buy(3, 10, TimeInForce::Gtc)).unwrap();
    assert_eq!(o.qty_matched, 0);
    assert_eq!(o.status, OrderStatus::Created);
    assert_eq!(ex.asks, vec![BookKey { token: q, price: 9, id: 1 }]);
    assert_eq!(ex.bids, vec![BookKey { token: q, price: 10, id: 2 }]);
}

#[test]
fn market_sell_takes_best_bids_first() {
    let (mut ex, q) = market();
    ex.submit(&acct("a"), 1, &limit_buy(2, 5, TimeInForce::Gtc)).unwrap();
    ex.submit(&acct("b"), 2, &limit_buy(2, 8, TimeInForce::Gtc)).unwrap();
    ex.submit(&acct("c"), 3, &limit_buy(2, 8, TimeInForce::Gtc)).unwrap();
    assert_eq!(
        ex.bids,
        vec![
            BookKey { token: q, price: 8, id: 2 },
            BookKey { token: q, price: 8, id: 3 },
            BookKey { token: q, price: 5, id: 1 },
        ]
    );
    let req = OrderRequest::MarketSell { quote: usd(), qty: 5, tif: TimeInForce::Ioc };
    let o = ex.submit(&acct("s"), 4, &req).unwrap();
    assert_eq!(o.status, OrderStatus::Filled);
    assert_eq!(o.qty_matched, 5);
    assert_eq!(ex.bids, vec![BookKey { token: q, price: 5, id: 1 }]);
    assert_eq!(ex.get_order(1).unwrap().qty_matched, 1);
    assert_eq!(ex.balance(&acct("s"), q), 8 * 4 + 5);
    assert_eq!(ex.balance(&acct("b"), BASE_TOKEN_ID), 2);
    assert_eq!(ex.balance(&acct("c"), BASE_TOKEN_ID), 2);
    assert_eq!(ex.balance(&acct("a"), BASE_TOKEN_ID), 1);
}

#[test]
fn market_buy_walks_up_the_asks() {
    let (mut ex, q) = market();
    ex.submit(&acct("x"), 1, &limit_sell(1, 30, TimeInForce::Gtc)).unwrap();
    ex.submit(&acct("y"), 2, &limit_sell(2, 10, TimeInForce::Gtc)).unwrap();
    let req = OrderRequest::MarketBuy { quote: usd(), balance: 45, tif: TimeInForce::Ioc };
    let o = ex.submit(&acct("b"), 3, &req).unwrap();
    assert_eq!(o.qty_matched, 2);
    assert_eq!(o.balance, 25);
    assert_eq!(o.status, OrderStatus::Matched);
    assert_eq!(ex.asks, vec![BookKey { token: q, price: 30, id: 1 }]);
    assert_eq!(ex.balance(&acct("y"), q), 20);
    assert_eq!(ex.balance(&acct("x"), q), 0);
}

#[test]
fn market_gtc_not_allowed() {
    let (mut ex, _q) = market();
    let req = OrderRequest::MarketBuy { quote: usd(), balance: 10, tif: TimeInForce::Gtc };
    assert_eq!(ex.submit(&acct("b"), 1, &req), Err(ContractError::TimeInForceNotAllowed));
    let req = OrderRequest::MarketSell { quote: usd(), qty: 10, tif: TimeInForce::Gtc };
    assert_eq!(ex.submit(&acct("b"), 1, &req), Err(ContractError::TimeInForceNotAllowed));
    assert!(ex.orders.is_empty());
}

#[test]
fn unknown_quote_token_refused() {
    let (mut ex, _q) = market();
    let req = OrderRequest::LimitBuy { quote: "native:ujpy".to_string(), qty: 1, price: 1, tif: TimeInForce::Gtc };
    assert_eq!(ex.submit(&acct("b"), 1, &req), Err(ContractError::TokenNotAllowed));
    assert_eq!(ex.order_id_seq, 0);
}

#[test]
fn credit_overflow_refused() {
    let (mut ex, q) = market();
    ex.submit(&acct("b"), 1, &limit_buy(2, u128::MAX, TimeInForce::Gtc)).unwrap();
    let r = ex.submit(&acct("s"), 2, &limit_sell(2, u128::MAX, TimeInForce::Gtc));
    assert_eq!(r, Err(ContractError::Overflow));
    assert_eq!(ex.orders.len(), 1);
    assert_eq!(ex.bids, vec![BookKey { token: q, price: u128::MAX, id: 1 }]);
    assert!(ex.asks.is_empty());
    assert_eq!(ex.balance(&acct("b"), BASE_TOKEN_ID), 0);
}

#[test]
fn zero_price_asks_are_free() {
    let (mut ex, q) = market();
    ex.submit(&acct("s"), 1, &limit_sell(4, 0, TimeInForce::Gtc)).unwrap();
    let req = OrderRequest::MarketBuy { quote: usd(), balance: 0, tif: TimeInForce::Fok };
    let o = ex.submit(&acct("b"), 2, &req).unwrap();
    assert_eq!(o.qty_matched, 4);
    assert_eq!(o.status, OrderStatus::Filled);
    assert!(ex.asks.is_empty());
    assert_eq!(ex.balance(&acct("s"), q), 0);
    assert_eq!(ex.balance(&acct("b"), BASE_TOKEN_ID), 4);
}

#[test]
fn zero_quantity_gtc_is_filled_and_never_rests() {
    let (mut ex, _q) = market();
    let o = ex.submit(&acct("b"), 1, &limit_buy(0, 10, TimeInForce::Gtc)).unwrap();
    assert_eq!(o.status, OrderStatus::Filled);
    assert!(ex.bids.is_empty());
}

#[test]
fn tokens_apart_do_not_meet() {
    let (mut ex, q) = market();
    let eur = "native:ueur".to_string();
    let e = ex.register_token(&eur, None).unwrap();
    assert_eq!(q, 2);
    assert_eq!(e, 3);
    ex.submit(&acct("s"), 1, &limit_sell(1, 10, TimeInForce::Gtc)).unwrap();
    let req = OrderRequest::LimitBuy { quote: eur, qty: 1, price: 10, tif: TimeInForce::Gtc };
    let o = ex.submit(&acct("b"), 2, &req).unwrap();
    assert_eq!(o.status, OrderStatus::Created);
    assert_eq!(o.quote_token, 3);
    assert_eq!(ex.asks, vec![BookKey { token: 2, price: 10, id: 1 }]);
    assert_eq!(ex.bids, vec![BookKey { token: 3, price: 10, id: 2 }]);
}

#[test]
fn self_trade_credits_both_legs() {
    let (mut ex, q) = market();
    let me = acct("m");
    ex.submit(&me, 1, &limit_sell(2, 7, TimeInForce::Gtc)).unwrap();
    ex.submit(&me, 2, &limit_buy(2, 7, TimeInForce::Gtc)).unwrap();
    assert_eq!(ex.balance(&me, q), 14);
    assert_eq!(ex.balance(&me, BASE_TOKEN_ID), 2);
    assert_eq!(ex.ledger.entries.len(), 2);
}

#[test]
fn register_with_explicit_id() {
    let mut ex = Exchange::new();
    assert_eq!(ex.register_token(&"cw20:base".to_string(), Some(BASE_TOKEN_ID)), Ok(1));
    assert_eq!(ex.token_id_seq, 1);
    assert_eq!(ex.load_token_id(&"cw20:base".to_string()), Ok(1));
    assert_eq!(ex.load_token_id(&"nope".to_string()), Err(ContractError::TokenNotAllowed));
    assert_eq!(ex.register_token(&"cw20:base".to_string(), Some(7)), Ok(7));
    assert_eq!(ex.load_token_id(&"cw20:base".to_string()), Ok(7));
    assert!(ex.get_order(0).is_none());
}

#[test]
fn order_side_codes() {
    assert_eq!(OrderSide::Buy.u8(), 1);
    assert_eq!(OrderSide::Sell.u8(), 2);
    assert_eq!(OrderSide::Buy.u8_complement(), 2);
    assert_eq!(OrderSide::Sell.u8_complement(), 1);
    assert_eq!(OrderSide::from_u8(2), Some(OrderSide::Sell));
    assert_eq!(OrderSide::from_u8(0), None);
}

#[test]
fn enum_codes_round_trip() {
    for t in [TimeInForce::Fok, TimeInForce::Ioc, TimeInForce::Gtc] {
        assert_eq!(TimeInForce::from_u8(t.to_u8()), Some(t));
    }
    for k in [OrderKind::Market, OrderKind::Limit] {
        assert_eq!(OrderKind::from_u8(k.to_u8()), Some(k));
    }
    for s in [
        OrderStatus::Created,
        OrderStatus::Matched,
        OrderStatus::Partial,
        OrderStatus::Filled,
        OrderStatus::Canceled,
    ] {
        assert_eq!(OrderStatus::from_u8(s.to_u8()), Some(s));
    }
    assert_eq!(OrderStatus::Partial.to_u8(), 3);
    assert_eq!(TimeInForce::from_u8(4), None);
    assert_eq!(OrderKind::from_u8(3), None);
    assert_eq!(OrderStatus::from_u8(6), None);
}

#[test]
fn order_predicates() {
    let (mut ex, _q) = market();
    let o = ex.submit(&acct("b"), 5, &limit_buy(3, 4, TimeInForce::Gtc)).unwrap();
    assert!(o.is_buy_side());
    assert!(!o.is_sell_side());
    assert!(o.is_limit_order());
    assert!(!o.is_market_order());
    assert!(!o.is_qty_filled());
    assert_eq!(o.get_qty_unmatched(), 3);
    assert_eq!(o.get_balance_remaining(), 0);
    assert_eq!(o.created_at, 5);
    assert_eq!(o.owner, "b");
}

#[test]
fn free_asks_beyond_u128_overflow() {
    let (mut ex, _q) = market();
    ex.submit(&acct("s"), 1, &limit_sell(u128::MAX, 0, TimeInForce::Gtc)).unwrap();
    ex.submit(&acct("t"), 2, &limit_sell(1, 0, TimeInForce::Gtc)).unwrap();
    let req = OrderRequest::MarketBuy { quote: usd(), balance: 0, tif: TimeInForce::Fok };
    assert_eq!(ex.submit(&acct("b"), 3, &req), Err(ContractError::Overflow));
    assert_eq!(ex.orders.len(), 2);
    assert_eq!(ex.asks.len(), 2);
}

#[test]
fn market_ioc_spending_everything_is_filled() {
    let (mut ex, q) = market();
    ex.submit(&acct("s"), 1, &limit_sell(5, 10, TimeInForce::Gtc)).unwrap();
    let req = OrderRequest::MarketBuy { quote: usd(), balance: 30, tif: TimeInForce::Ioc };
    let o = ex.submit(&acct("b"), 2, &req).unwrap();
    assert_eq!(o.status, OrderStatus::Filled);
    assert_eq!(o.qty_matched, 3);
    assert_eq!(o.balance, 0);
    assert_eq!(ex.asks, vec![BookKey { token: q, price: 10, id: 1 }]);
    assert_eq!(ex.get_order(1).unwrap().status, OrderStatus::Partial);
}

#[test]
fn market_sell_fok_shortfall_refused() {
    let (mut ex, q) = market();
    ex.submit(&acct("a"), 1, &limit_buy(2, 5, TimeInForce::Gtc)).unwrap();
    let req = OrderRequest::MarketSell { quote: usd(), qty: 3, tif: TimeInForce::Fok };
    assert_eq!(ex.submit(&acct("s"), 2, &req), Err(ContractError::InsufficientLiquidity));
    assert_eq!(ex.bids, vec![BookKey { token: q, price: 5, id: 1 }]);
    assert_eq!(ex.get_order(1).unwrap().qty_matched, 0);
    let req = OrderRequest::MarketSell { quote: usd(), qty: 2, tif: TimeInForce::Fok };
    let o = ex.submit(&acct("s"), 3, &req).unwrap();
    assert_eq!(o.status, OrderStatus::Filled);
    assert_eq!(ex.balance(&acct("s"), q), 10);
    assert!(ex.bids.is_empty());
}

#[test]
fn gtc_partial_match_rests_remainder() {
    let (mut ex, q) = market();
    ex.submit(&acct("s"), 1, &limit_sell(2, 10, TimeInForce::Gtc)).unwrap();
    let o = ex.submit(&acct("b"), 2, &limit_buy(5, 10, TimeInForce::Gtc)).unwrap();
    assert_eq!(o.status, OrderStatus::Partial);
    assert_eq!(o.qty_matched, 2);
    assert!(ex.asks.is_empty());
    assert_eq!(ex.bids, vec![BookKey { token: q, price: 10, id: 2 }]);
    assert_eq!(ex.get_order(1).unwrap().status, OrderStatus::Filled);
}

#[test]
fn market_gtc_refused_before_overflow() {
    let (mut ex, _q) = market();
    ex.submit(&acct("s"), 1, &limit_sell(u128::MAX, 0, TimeInForce::Gtc)).unwrap();
    ex.submit(&acct("t"), 2, &limit_sell(1, 0, TimeInForce::Gtc)).unwrap();
    let req = OrderRequest::MarketBuy { quote: usd(), balance: 0, tif: TimeInForce::Gtc };
    assert_eq!(ex.submit(&acct("b"), 3, &req), Err(ContractError::TimeInForceNotAllowed));
    ex.order_id_seq = u64::MAX;
    let req = OrderRequest::MarketSell { quote: usd(), qty: 1, tif: TimeInForce::Gtc };
    assert_eq!(ex.submit(&acct("b"), 4, &req), Err(ContractError::TimeInForceNotAllowed));
    let req = OrderRequest::LimitSell { quote: usd(), qty: 1, price: 1, tif: TimeInForce::Gtc };
    assert_eq!(ex.submit(&acct("b"), 5, &req), Err(ContractError::Overflow));
    ex.order_id_seq = 2;
    assert_eq!(ex.orders.len(), 2);
    assert_eq!(ex.asks.len(), 2);
}
