use vstd::prelude::*;
use crate::index::FRAC_UNIT;

verus! {

/// A fixed-point rate or fee with 18 decimal places, held as its
/// numerator: the represented value is `atomics / 10^18`. Fee rates and
/// the yearly inflation rate are carried this way.
#[derive(Clone, Copy, PartialEq, Eq, Structural, Debug)]
pub struct Rate {
    pub atomics: u128,
}

impl Rate {
    /// The represented value scaled by 10^18.
    pub open spec fn num(self) -> int {
        self.atomics as int
    }

    #[verifier::spinoff_prover]
    pub fn zero() -> (r: Rate)
        ensures
            r.num() == 0,
    {
        Rate { atomics: 0 }
    }

    /// `x / 100`, the conventional way fees are written.
    #[verifier::spinoff_prover]
    pub fn percent(x: u64) -> (r: Rate)
        ensures
            r.num() == x * ((FRAC_UNIT / 100) as int),
    {
        proof {
            assert(x as int * 10_000_000_000_000_000 <= u128::MAX) by (nonlinear_arith)
                requires
                    0 <= x <= u64::MAX,
            ;
        }
        Rate { atomics: (x as u128) * (FRAC_UNIT / 100) }
    }

    #[verifier::spinoff_prover]
    pub fn is_zero(&self) -> (r: bool)
        ensures
            r == (self.num() == 0),
    {
        self.atomics == 0
    }
}

/// Relies on `cosmwasm_std::Uint128::checked_mul_floor` with a `Decimal`:
/// it computes `floor(amount * rate_atomics / 10^18)` in full precision,
/// failing exactly when the result exceeds `u128::MAX`.
#[verifier::external_body]
pub fn mul_floor_rate(amount: u128, rate: Rate) -> (r: Option<u128>)
    ensures
        r matches Some(v) ==> v == (amount * rate.num()) / (FRAC_UNIT as int),
        r is None <==> (amount * rate.num()) / (FRAC_UNIT as int) > u128::MAX,
{
    let d = cosmwasm_std::Decimal::new(cosmwasm_std::Uint128::new(rate.atomics));
    match cosmwasm_std::Uint128::new(amount).checked_mul_floor(d) {
        Err(_) => None,
        Ok(v) => Some(v.u128()),
    }
}

/// Relies on `cosmwasm_std::Decimal::checked_mul`: the product's atomics
/// are `floor(a * b / 10^18)`, failing exactly when that exceeds
/// `u128::MAX`.
#[verifier::external_body]
pub fn mul_rate(a: Rate, b: Rate) -> (r: Option<Rate>)
    ensures
        r matches Some(v) ==> v.num() == (a.num() * b.num()) / (FRAC_UNIT as int),
        r is None <==> (a.num() * b.num()) / (FRAC_UNIT as int) > u128::MAX,
{
    let da = cosmwasm_std::Decimal::new(cosmwasm_std::Uint128::new(a.atomics));
    let db = cosmwasm_std::Decimal::new(cosmwasm_std::Uint128::new(b.atomics));
    match da.checked_mul(db) {
        Err(_) => None,
        Ok(v) => Some(Rate { atomics: v.atomics().u128() }),
    }
}

/// Relies on `cosmwasm_std::Decimal::checked_from_ratio`: the quotient's
/// atomics are `floor(a * 10^18 / b)`, failing exactly when that exceeds
/// `u128::MAX` (the divisor is required to be nonzero).
#[verifier::external_body]
pub fn div_rate(a: Rate, b: Rate) -> (r: Option<Rate>)
    requires
        b.num() > 0,
    ensures
        r matches Some(v) ==> v.num() == (a.num() * (FRAC_UNIT as int)) / b.num(),
        r is None <==> (a.num() * (FRAC_UNIT as int)) / b.num() > u128::MAX,
{
    let na = cosmwasm_std::Uint128::new(a.atomics);
    let nb = cosmwasm_std::Uint128::new(b.atomics);
    match cosmwasm_std::Decimal::checked_from_ratio(na, nb) {
        Err(_) => None,
        Ok(v) => Some(Rate { atomics: v.atomics().u128() }),
    }
}

} // verus!
