use vstd::prelude::*;

verus! {

/// Why a submission was refused. A refused submission changes nothing.
#[derive(Clone, Copy, Debug, PartialEq, Eq, Structural)]
pub enum ContractError {
    NotAuthorized,
    /// A fill-or-kill order could not be filled whole, or an
    /// immediate-or-cancel order matched nothing.
    InsufficientLiquidity,
    /// Good-till-canceled was asked of a market order.
    TimeInForceNotAllowed,
    MetadataNotFound,
    /// The quote token is not registered.
    TokenNotAllowed,
    TokenNotFound,
    Cw20InstantiationFailed,
    /// An amount or a counter would leave the range of its integer type.
    Overflow,
}

} // verus!
