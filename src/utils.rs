use vstd::prelude::*;

verus! {

/// Parts per million that make a whole.
pub const PCT_SCALE: u128 = 1_000_000;

/// Relies on cosmwasm_std::Uint128::checked_multiply_ratio: `a * num / den`,
/// floored, computed over a 256-bit product; an error where `den` is zero or
/// the quotient does not fit in 128 bits.
#[verifier::external_body]
fn checked_multiply_ratio(a: u128, num: u128, den: u128) -> (r: Option<u128>)
    ensures
        den == 0 ==> r is None,
        den != 0 ==> (r is Some <==> a * num / (den as int) <= u128::MAX),
        r matches Some(v) ==> v == a * num / (den as int),
{
    match cosmwasm_std::Uint128::new(a).checked_multiply_ratio(num, den) {
        Ok(v) => Some(v.u128()),
        Err(_) => None,
    }
}

/// `pct` parts per million of `total`, rounded down.
pub fn mul_pct(total: u128, pct: u128) -> (r: u128)
    requires
        total * pct / (PCT_SCALE as int) <= u128::MAX,
    ensures
        r == total * pct / (PCT_SCALE as int),
{
    match checked_multiply_ratio(total, pct, PCT_SCALE) {
        Some(v) => v,
        None => 0,
    }
}

} // verus!
