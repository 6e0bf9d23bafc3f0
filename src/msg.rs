use vstd::prelude::*;
use crate::models::{OrderKind, OrderSide, TimeInForce};

verus! {

/// A request to trade the base token against the quote token named by
/// `quote` (the token's registry key).
#[derive(Clone, Debug)]
pub enum OrderRequest {
    /// Buy as much as `balance` quote units pay for, best price first.
    MarketBuy { quote: String, balance: u128, tif: TimeInForce },
    /// Sell `qty` units, best price first.
    MarketSell { quote: String, qty: u128, tif: TimeInForce },
    /// Buy `qty` units at exactly `price`.
    LimitBuy { quote: String, qty: u128, price: u128, tif: TimeInForce },
    /// Sell `qty` units at exactly `price`.
    LimitSell { quote: String, qty: u128, price: u128, tif: TimeInForce },
}

#[derive(Clone, Copy, Debug, PartialEq, Eq, Structural)]
pub struct MigrateMsg {}

impl OrderRequest {
    pub open spec fn quote_key(self) -> Seq<char> {
        match self {
            OrderRequest::MarketBuy { quote, .. } => quote@,
            OrderRequest::MarketSell { quote, .. } => quote@,
            OrderRequest::LimitBuy { quote, .. } => quote@,
            OrderRequest::LimitSell { quote, .. } => quote@,
        }
    }

    pub open spec fn side(self) -> OrderSide {
        match self {
            OrderRequest::MarketBuy { .. } | OrderRequest::LimitBuy { .. } => OrderSide::Buy,
            _ => OrderSide::Sell,
        }
    }

    pub open spec fn kind(self) -> OrderKind {
        match self {
            OrderRequest::MarketBuy { .. } | OrderRequest::MarketSell { .. } => OrderKind::Market,
            _ => OrderKind::Limit,
        }
    }

    pub open spec fn tif(self) -> TimeInForce {
        match self {
            OrderRequest::MarketBuy { tif, .. } => tif,
            OrderRequest::MarketSell { tif, .. } => tif,
            OrderRequest::LimitBuy { tif, .. } => tif,
            OrderRequest::LimitSell { tif, .. } => tif,
        }
    }

    /// Units asked for; a market buy asks for funds instead.
    pub open spec fn qty(self) -> u128 {
        match self {
            OrderRequest::MarketBuy { .. } => 0,
            OrderRequest::MarketSell { qty, .. } => qty,
            OrderRequest::LimitBuy { qty, .. } => qty,
            OrderRequest::LimitSell { qty, .. } => qty,
        }
    }

    /// The limit price; zero for a market order.
    pub open spec fn price(self) -> u128 {
        match self {
            OrderRequest::LimitBuy { price, .. } => price,
            OrderRequest::LimitSell { price, .. } => price,
            _ => 0,
        }
    }

    /// Funds a market buy may spend; zero for other orders.
    pub open spec fn funds(self) -> u128 {
        match self {
            OrderRequest::MarketBuy { balance, .. } => balance,
            _ => 0,
        }
    }

    /// Side, kind, time-in-force, quantity, price and funds of the request.
    pub fn parts(&self) -> (r: (OrderSide, OrderKind, TimeInForce, u128, u128, u128))
        ensures
            r == (self.side(), self.kind(), self.tif(), self.qty(), self.price(), self.funds()),
    {
        match self {
            OrderRequest::MarketBuy { balance, tif, .. } => (OrderSide::Buy, OrderKind::Market, *tif, 0, 0, *balance),
            OrderRequest::MarketSell { qty, tif, .. } => (OrderSide::Sell, OrderKind::Market, *tif, *qty, 0, 0),
            OrderRequest::LimitBuy { qty, price, tif, .. } => (OrderSide::Buy, OrderKind::Limit, *tif, *qty, *price, 0),
            OrderRequest::LimitSell { qty, price, tif, .. } => (OrderSide::Sell, OrderKind::Limit, *tif, *qty, *price, 0),
        }
    }

    pub fn quote(&self) -> (r: &String)
        ensures
            r@ == self.quote_key(),
    {
        match self {
            OrderRequest::MarketBuy { quote, .. } => quote,
            OrderRequest::MarketSell { quote, .. } => quote,
            OrderRequest::LimitBuy { quote, .. } => quote,
            OrderRequest::LimitSell { quote, .. } => quote,
        }
    }
}

} // verus!
