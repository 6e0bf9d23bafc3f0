use vstd::prelude::*;

verus! {

pub type OrderId = u64;

pub const BUY: u8 = 1;
pub const SELL: u8 = 2;

pub const FOK: u8 = 1;
pub const IOC: u8 = 2;
pub const GTC: u8 = 3;

pub const MARKET: u8 = 1;
pub const LIMIT: u8 = 2;

pub const CREATED: u8 = 1;
pub const MATCHED: u8 = 2;
pub const PARTIAL: u8 = 3;
pub const FILLED: u8 = 4;
pub const CANCELED: u8 = 5;

/// How long an order may wait for liquidity.
#[derive(Clone, Copy, Debug, PartialEq, Eq, Structural)]
pub enum TimeInForce {
    Fok,
    Ioc,
    Gtc,
}

#[derive(Clone, Copy, Debug, PartialEq, Eq, Structural)]
pub enum OrderSide {
    Buy,
    Sell,
}

#[derive(Clone, Copy, Debug, PartialEq, Eq, Structural)]
pub enum OrderKind {
    Market,
    Limit,
}

#[derive(Clone, Copy, Debug, PartialEq, Eq, Structural)]
pub enum OrderStatus {
    Created,
    Matched,
    Partial,
    Filled,
    Canceled,
}

pub open spec fn tif_code(t: TimeInForce) -> u8 {
    match t {
        TimeInForce::Fok => FOK,
        TimeInForce::Ioc => IOC,
        TimeInForce::Gtc => GTC,
    }
}

pub open spec fn side_code(s: OrderSide) -> u8 {
    match s {
        OrderSide::Buy => BUY,
        OrderSide::Sell => SELL,
    }
}

pub open spec fn kind_code(k: OrderKind) -> u8 {
    match k {
        OrderKind::Market => MARKET,
        OrderKind::Limit => LIMIT,
    }
}

pub open spec fn status_code(s: OrderStatus) -> u8 {
    match s {
        OrderStatus::Created => CREATED,
        OrderStatus::Matched => MATCHED,
        OrderStatus::Partial => PARTIAL,
        OrderStatus::Filled => FILLED,
        OrderStatus::Canceled => CANCELED,
    }
}

impl TimeInForce {
    pub fn to_u8(&self) -> (r: u8)
        ensures
            r == tif_code(*self),
    {
        match self {
            TimeInForce::Fok => FOK,
            TimeInForce::Ioc => IOC,
            TimeInForce::Gtc => GTC,
        }
    }

    /// Decodes a stored code; an unknown code is refused rather than trusted.
    pub fn from_u8(v: u8) -> (r: Option<TimeInForce>)
        ensures
            r matches Some(t) <==> (v == FOK || v == IOC || v == GTC),
            r matches Some(t) ==> tif_code(t) == v,
    {
        if v == FOK {
            Some(TimeInForce::Fok)
        } else if v == IOC {
            Some(TimeInForce::Ioc)
        } else if v == GTC {
            Some(TimeInForce::Gtc)
        } else {
            None
        }
    }
}

impl OrderSide {
    pub fn u8(&self) -> (r: u8)
        ensures
            r == side_code(*self),
    {
        match self {
            OrderSide::Buy => BUY,
            OrderSide::Sell => SELL,
        }
    }

    /// The code of the opposite side, whose orders this side trades against.
    pub fn u8_complement(&self) -> (r: u8)
        ensures
            r == side_code(self.complement()),
    {
        match self {
            OrderSide::Buy => SELL,
            OrderSide::Sell => BUY,
        }
    }

    pub open spec fn complement(self) -> OrderSide {
        match self {
            OrderSide::Buy => OrderSide::Sell,
            OrderSide::Sell => OrderSide::Buy,
        }
    }

    pub fn from_u8(v: u8) -> (r: Option<OrderSide>)
        ensures
            r matches Some(s) <==> (v == BUY || v == SELL),
            r matches Some(s) ==> side_code(s) == v,
    {
        if v == BUY {
            Some(OrderSide::Buy)
        } else if v == SELL {
            Some(OrderSide::Sell)
        } else {
            None
        }
    }
}

impl OrderKind {
    pub fn to_u8(&self) -> (r: u8)
        ensures
            r == kind_code(*self),
    {
        match self {
            OrderKind::Market => MARKET,
            OrderKind::Limit => LIMIT,
        }
    }

    pub fn from_u8(v: u8) -> (r: Option<OrderKind>)
        ensures
            r matches Some(k) <==> (v == MARKET || v == LIMIT),
            r matches Some(k) ==> kind_code(k) == v,
    {
        if v == MARKET {
            Some(OrderKind::Market)
        } else if v == LIMIT {
            Some(OrderKind::Limit)
        } else {
            None
        }
    }
}

impl OrderStatus {
    pub fn to_u8(&self) -> (r: u8)
        ensures
            r == status_code(*self),
    {
        match self {
            OrderStatus::Created => CREATED,
            OrderStatus::Matched => MATCHED,
            OrderStatus::Partial => PARTIAL,
            OrderStatus::Filled => FILLED,
            OrderStatus::Canceled => CANCELED,
        }
    }

    pub fn from_u8(v: u8) -> (r: Option<OrderStatus>)
        ensures
            r matches Some(s) <==> (CREATED <= v <= CANCELED),
            r matches Some(s) ==> status_code(s) == v,
    {
        if v == CREATED {
            Some(OrderStatus::Created)
        } else if v == PARTIAL {
            Some(OrderStatus::Partial)
        } else if v == MATCHED {
            Some(OrderStatus::Matched)
        } else if v == FILLED {
            Some(OrderStatus::Filled)
        } else if v == CANCELED {
            Some(OrderStatus::Canceled)
        } else {
            None
        }
    }
}

/// An order record. Amounts are whole token units; `created_at` is a
/// timestamp in nanoseconds supplied by the caller.
#[derive(Clone, Debug, PartialEq, Eq)]
pub struct Order {
    pub id: Option<u64>,
    pub owner: String,
    pub created_at: u64,
    /// Id of the quote token the order trades against.
    pub quote_token: u32,
    pub side: OrderSide,
    pub kind: OrderKind,
    pub tif: TimeInForce,
    pub status: OrderStatus,
    /// Funds left to spend (market buys only).
    pub balance: u128,
    /// Funds the order started with (market buys only).
    pub funds: u128,
    pub qty_matched: u128,
    pub qty_requested: u128,
    pub limit_price: u128,
}

impl Order {
    /// Quantity still open; zero where the order asked for none.
    pub open spec fn unmatched(self) -> int {
        if self.qty_requested == 0 { 0 } else { self.qty_requested - self.qty_matched }
    }

    pub fn get_qty_unmatched(&self) -> (r: u128)
        requires
            self.qty_matched <= self.qty_requested,
        ensures
            r == self.unmatched(),
    {
        if self.qty_requested == 0 {
            return 0;
        }
        self.qty_requested - self.qty_matched
    }

    /// Funds spent so far; zero where nothing is left to account for.
    pub fn get_balance_remaining(&self) -> (r: u128)
        requires
            self.balance <= self.funds,
        ensures
            r == (if self.balance == 0 { 0 } else { self.funds - self.balance }),
    {
        if self.balance == 0 {
            return 0;
        }
        self.funds - self.balance
    }

    pub fn is_qty_filled(&self) -> (r: bool)
        ensures
            r == (self.qty_matched == self.qty_requested),
    {
        self.qty_matched == self.qty_requested
    }

    pub fn is_buy_side(&self) -> (r: bool)
        ensures
            r == (self.side == OrderSide::Buy),
    {
        self.side == OrderSide::Buy
    }

    pub fn is_sell_side(&self) -> (r: bool)
        ensures
            r == (self.side == OrderSide::Sell),
    {
        self.side == OrderSide::Sell
    }

    pub fn is_limit_order(&self) -> (r: bool)
        ensures
            r == (self.kind == OrderKind::Limit),
    {
        self.kind == OrderKind::Limit
    }

    pub fn is_market_order(&self) -> (r: bool)
        ensures
            r == (self.kind == OrderKind::Market),
    {
        self.kind == OrderKind::Market
    }
}

} // verus!
