use order_book::engine::{Exchange, BASE_TOKEN_ID};
use order_book::error::ContractError;
use order_book::models::TimeInForce;
use order_book::msg::OrderRequest;
use order_book::query::TokenAmount;
use order_book::utils::mul_pct;

fn setup() -> (Exchange, u32) {
    let mut ex = Exchange::new();
    let q = ex.register_token(&"native:uusd".to_string(), None).unwrap();
    (ex, q)
}

fn buy(qty: u128, price: u128) -> OrderRequest {
    OrderRequest::LimitBuy { quote: "native:uusd".to_string(), qty, price, tif: TimeInForce::Gtc }
}

#[test]
fn orders_newest_first_with_cursor() {
    let (mut ex, _q) = setup();
    let a = "a".to_string();
    let b = "b".to_string();
    for i in 0..5u64 {
        let who = if i % 2 == 0 { &a } else { &b };
        ex.submit(who, i, &buy(1, 10 + i as u128)).unwrap();
    }
    let page = ex.orders(&a, None, Some(2));
    let ids: Vec<Option<u64>> = page.orders.iter().map(|o| o.id).collect();
    assert_eq!(ids, vec![Some(5), Some(3)]);
    assert_eq!(page.cursor, Some(3));
    let page = ex.orders(&a, page.cursor, Some(2));
    let ids: Vec<Option<u64>> = page.orders.iter().map(|o| o.id).collect();
    assert_eq!(ids, vec![Some(1)]);
    assert_eq!(page.cursor, Some(1));
    let page = ex.orders(&a, page.cursor, None);
    assert!(page.orders.is_empty());
    assert_eq!(page.cursor, None);
    let page = ex.orders(&b, None, Some(0));
    let ids: Vec<Option<u64>> = page.orders.iter().map(|o| o.id).collect();
    assert_eq!(ids, vec![Some(4)]);
    let page = ex.orders(&b, Some(1000), Some(200));
    assert_eq!(page.orders.len(), 2);
}

#[test]
fn select_lists_nonzero_quote_balances() {
    let (mut ex, q) = setup();
    let eur = "native:ueur".to_string();
    let e = ex.register_token(&eur, None).unwrap();
    let s = "s".to_string();
    ex.submit(&s, 1, &OrderRequest::LimitSell { quote: "native:uusd".to_string(), qty: 2, price: 3, tif: TimeInForce::Gtc }).unwrap();
    ex.submit(&s, 2, &OrderRequest::LimitSell { quote: eur.clone(), qty: 1, price: 0, tif: TimeInForce::Gtc }).unwrap();
    ex.submit(&"b".to_string(), 3, &buy(2, 3)).unwrap();
    ex.submit(&"b".to_string(), 4, &OrderRequest::LimitBuy { quote: eur, qty: 1, price: 0, tif: TimeInForce::Gtc }).unwrap();
    let v = ex.select(Some(&s)).account.unwrap();
    assert_eq!(v.base_balance, 0);
    assert_eq!(v.quote_balances, vec![TokenAmount { token: q, amount: 6 }]);
    let v = ex.account_view(&"b".to_string());
    assert!(ex.select(None).account.is_none());
    assert_eq!(v.base_balance, 3);
    assert!(v.quote_balances.is_empty());
    assert_eq!(ex.balance(&s, e), 0);
    assert_eq!(ex.balance(&"b".to_string(), BASE_TOKEN_ID), 3);
}

#[test]
fn token_by_id() {
    let (ex, q) = setup();
    assert_eq!(ex.load_token_by_id(q), Ok("native:uusd".to_string()));
    assert_eq!(ex.load_token_by_id(9), Err(ContractError::TokenNotFound));
}

#[test]
fn mul_pct_parts_per_million() {
    assert_eq!(mul_pct(1_000, 250_000), 250);
    assert_eq!(mul_pct(5, 990_000), 4);
    assert_eq!(mul_pct(u128::MAX, 1_000_000), u128::MAX);
    assert_eq!(mul_pct(0, 7), 0);
}

#[test]
fn base_token_not_found_by_id() {
    let mut ex = Exchange::new();
    ex.register_token(&"cw20:base".to_string(), Some(BASE_TOKEN_ID)).unwrap();
    assert_eq!(ex.load_token_id(&"cw20:base".to_string()), Ok(BASE_TOKEN_ID));
    assert_eq!(ex.load_token_by_id(BASE_TOKEN_ID), Err(ContractError::TokenNotFound));
}

#[test]
fn quote_balances_by_ascending_token() {
    let mut ex = Exchange::new();
    let two = ex.register_token(&"native:a".to_string(), None).unwrap();
    let three = ex.register_token(&"native:b".to_string(), None).unwrap();
    let s = "s".to_string();
    let b = "b".to_string();
    ex.submit(&s, 1, &OrderRequest::LimitSell { quote: "native:b".to_string(), qty: 1, price: 7, tif: TimeInForce::Gtc }).unwrap();
    ex.submit(&b, 2, &OrderRequest::LimitBuy { quote: "native:b".to_string(), qty: 1, price: 7, tif: TimeInForce::Gtc }).unwrap();
    ex.submit(&s, 3, &OrderRequest::LimitSell { quote: "native:a".to_string(), qty: 1, price: 5, tif: TimeInForce::Gtc }).unwrap();
    ex.submit(&b, 4, &OrderRequest::LimitBuy { quote: "native:a".to_string(), qty: 1, price: 5, tif: TimeInForce::Gtc }).unwrap();
    let v = ex.account_view(&s);
    assert_eq!(v.quote_balances, vec![TokenAmount { token: two, amount: 5 }, TokenAmount { token: three, amount: 7 }]);
    assert!(ex.is_well_formed());
}

#[test]
fn ill_formed_store_is_detected() {
    let (mut ex, _q) = setup();
    assert!(ex.is_well_formed());
    ex.submit(&"a".to_string(), 1, &buy(2, 10)).unwrap();
    assert!(ex.is_well_formed());
    ex.order_id_seq = 5;
    assert!(!ex.is_well_formed());
    ex.order_id_seq = 1;
    ex.bids.push(ex.bids[0]);
    assert!(!ex.is_well_formed());
}
