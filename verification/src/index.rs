use vstd::prelude::*;

verus! {

/// Atomics per whole unit of a fixed-point number with 18 decimal places.
pub const FRAC_UNIT: u128 = 1_000_000_000_000_000_000;

/// 2^128, the weight of the high limb.
pub open spec fn limb_base() -> int {
    (u128::MAX as int) + 1
}

/// 2^256, one past the largest representable numerator.
pub open spec fn index_bound() -> int {
    limb_base() * limb_base()
}

/// A per-denom global reward index: an unsigned 256-bit fixed-point
/// number with 18 decimal places, held as two 128-bit limbs. The
/// represented value is `num() / FRAC_UNIT` reward units per unit of
/// weight.
#[derive(Clone, Copy, PartialEq, Eq, Structural, Debug)]
pub struct RewardIndex {
    pub hi: u128,
    pub lo: u128,
}

/// Every representable numerator lies below `index_bound()`.
#[verifier::spinoff_prover]
pub proof fn lemma_index_in_range(a: RewardIndex)
    ensures
        0 <= a.num() < index_bound(),
{
    assert(0 <= a.hi as int * limb_base() + a.lo < limb_base() * limb_base())
        by (nonlinear_arith)
        requires
            0 <= a.hi <= u128::MAX,
            0 <= a.lo <= u128::MAX,
    ;
}

/// The limb representation compares like the value it denotes.
#[verifier::spinoff_prover]
proof fn lemma_limb_order(a: RewardIndex, b: RewardIndex)
    ensures
        (a.num() <= b.num()) == (a.hi < b.hi || (a.hi == b.hi && a.lo <= b.lo)),
        (a.num() == b.num()) == (a.hi == b.hi && a.lo == b.lo),
{
    assert((a.hi as int * limb_base() + a.lo <= b.hi as int * limb_base() + b.lo) == (a.hi < b.hi
        || (a.hi == b.hi && a.lo <= b.lo))) by (nonlinear_arith)
        requires
            0 <= a.hi <= u128::MAX,
            0 <= a.lo <= u128::MAX,
            0 <= b.hi <= u128::MAX,
            0 <= b.lo <= u128::MAX,
    ;
    assert((a.hi as int * limb_base() + a.lo == b.hi as int * limb_base() + b.lo) == (a.hi == b.hi
        && a.lo == b.lo)) by (nonlinear_arith)
        requires
            0 <= a.hi <= u128::MAX,
            0 <= a.lo <= u128::MAX,
            0 <= b.hi <= u128::MAX,
            0 <= b.lo <= u128::MAX,
    ;
}

impl RewardIndex {
    /// The numerator: the index scaled by 10^18.
    pub open spec fn num(self) -> int {
        self.hi as int * limb_base() + self.lo
    }

    #[verifier::spinoff_prover]
    pub fn zero() -> (r: RewardIndex)
        ensures
            r.num() == 0,
    {
        RewardIndex { hi: 0, lo: 0 }
    }

    #[verifier::spinoff_prover]
    pub fn is_zero(&self) -> (r: bool)
        ensures
            r == (self.num() == 0),
    {
        proof {
            lemma_limb_order(*self, RewardIndex { hi: 0, lo: 0 });
        }
        self.hi == 0 && self.lo == 0
    }

    /// `self <= other` on the represented values.
    #[verifier::spinoff_prover]
    pub fn le(&self, other: &RewardIndex) -> (r: bool)
        ensures
            r == (self.num() <= other.num()),
    {
        proof {
            lemma_limb_order(*self, *other);
        }
        if self.hi < other.hi {
            true
        } else if self.hi == other.hi {
            self.lo <= other.lo
        } else {
            false
        }
    }

    /// 256-bit addition; `None` exactly when the sum is not representable.
    #[verifier::spinoff_prover]
    pub fn checked_add(&self, other: &RewardIndex) -> (r: Option<RewardIndex>)
        ensures
            r matches Some(s) ==> s.num() == self.num() + other.num(),
            r is None <==> self.num() + other.num() >= index_bound(),
    {
        let a = *self;
        let b = *other;
        let (lo, carry): (u128, u128) = if a.lo <= u128::MAX - b.lo {
            (a.lo + b.lo, 0)
        } else {
            ((a.lo - (u128::MAX - b.lo)) - 1, 1)
        };
        proof {
            assert(lo as int + carry as int * limb_base() == a.lo + b.lo) by (nonlinear_arith)
                requires
                    (carry == 0 && lo == a.lo + b.lo) || (carry == 1 && lo == a.lo + b.lo
                        - ((u128::MAX as int) + 1)),
            ;
        }
        if a.hi > u128::MAX - b.hi {
            proof {
                assert(a.num() + b.num() >= index_bound()) by (nonlinear_arith)
                    requires
                        a.hi as int + b.hi as int > u128::MAX,
                        a.lo >= 0,
                        b.lo >= 0,
                        a.num() == a.hi as int * limb_base() + a.lo,
                        b.num() == b.hi as int * limb_base() + b.lo,
                        index_bound() == limb_base() * limb_base(),
                        limb_base() == (u128::MAX as int) + 1,
                ;
            }
            return None;
        }
        let hi_sum = a.hi + b.hi;
        if carry == 1 && hi_sum == u128::MAX {
            proof {
                assert(a.num() + b.num() >= index_bound()) by (nonlinear_arith)
                    requires
                        a.hi as int + b.hi as int == u128::MAX,
                        a.lo as int + b.lo as int >= (u128::MAX as int) + 1,
                        a.num() == a.hi as int * limb_base() + a.lo,
                        b.num() == b.hi as int * limb_base() + b.lo,
                        index_bound() == limb_base() * limb_base(),
                        limb_base() == (u128::MAX as int) + 1,
                ;
            }
            return None;
        }
        let hi = hi_sum + carry;
        let s = RewardIndex { hi, lo };
        proof {
            assert(s.num() == a.num() + b.num()) by (nonlinear_arith)
                requires
                    hi == a.hi as int + b.hi as int + carry,
                    lo as int + carry as int * limb_base() == a.lo + b.lo,
                    s.num() == hi as int * limb_base() + lo,
                    a.num() == a.hi as int * limb_base() + a.lo,
                    b.num() == b.hi as int * limb_base() + b.lo,
            ;
            lemma_index_in_range(s);
        }
        Some(s)
    }

    /// 256-bit subtraction of a smaller or equal index.
    #[verifier::spinoff_prover]
    pub fn checked_sub(&self, other: &RewardIndex) -> (r: RewardIndex)
        requires
            other.num() <= self.num(),
        ensures
            r.num() == self.num() - other.num(),
    {
        let a = *self;
        let b = *other;
        proof {
            lemma_limb_order(b, a);
        }
        if a.lo >= b.lo {
            let r = RewardIndex { hi: a.hi - b.hi, lo: a.lo - b.lo };
            proof {
                assert(r.num() == a.num() - b.num()) by (nonlinear_arith)
                    requires
                        r.num() == (a.hi - b.hi) as int * limb_base() + (a.lo - b.lo),
                        a.num() == a.hi as int * limb_base() + a.lo,
                        b.num() == b.hi as int * limb_base() + b.lo,
                        a.hi >= b.hi,
                        a.lo >= b.lo,
                ;
            }
            r
        } else {
            // borrow one unit of the high limb
            proof {
                assert(a.hi > b.hi);
            }
            let lo = (u128::MAX - b.lo) + a.lo + 1;
            let r = RewardIndex { hi: (a.hi - b.hi) - 1, lo };
            proof {
                assert(r.num() == a.num() - b.num()) by (nonlinear_arith)
                    requires
                        lo == a.lo as int + (u128::MAX as int) + 1 - b.lo,
                        r.num() == (a.hi - b.hi - 1) as int * limb_base() + lo,
                        a.num() == a.hi as int * limb_base() + a.lo,
                        b.num() == b.hi as int * limb_base() + b.lo,
                        a.hi > b.hi,
                        limb_base() == (u128::MAX as int) + 1,
                ;
            }
            r
        }
    }
}

/// Relies on `cosmwasm_std::Decimal256::from_ratio`: the returned decimal's
/// atomics are `floor(amount * 10^18 / total)`, computed in full precision
/// (the product never exceeds 256 bits for a 128-bit `amount`).
#[verifier::external_body]
pub fn index_from_ratio(amount: u128, total: u128) -> (r: RewardIndex)
    requires
        total > 0,
    ensures
        r.num() == (amount * FRAC_UNIT) / (total as int),
{
    let d = cosmwasm_std::Decimal256::from_ratio(amount, total);
    let bytes = d.atomics().to_be_bytes();
    let mut hi_bytes = [0u8; 16];
    let mut lo_bytes = [0u8; 16];
    hi_bytes.copy_from_slice(&bytes[..16]);
    lo_bytes.copy_from_slice(&bytes[16..]);
    RewardIndex { hi: u128::from_be_bytes(hi_bytes), lo: u128::from_be_bytes(lo_bytes) }
}

/// Relies on `cosmwasm_std::Uint256::checked_mul_floor` with a
/// `Decimal256`: it computes `floor(weight * num / 10^18)` in full
/// precision, failing exactly when the result does not fit (here: in a
/// `u128`, as the 256-bit result is further converted down).
#[verifier::external_body]
pub fn mul_floor_index(weight: u128, idx: &RewardIndex) -> (r: Option<u128>)
    ensures
        r matches Some(v) ==> v == (weight * idx.num()) / (FRAC_UNIT as int),
        r is None <==> (weight * idx.num()) / (FRAC_UNIT as int) > u128::MAX,
{
    let mut bytes = [0u8; 32];
    bytes[..16].copy_from_slice(&idx.hi.to_be_bytes());
    bytes[16..].copy_from_slice(&idx.lo.to_be_bytes());
    let d = cosmwasm_std::Decimal256::new(cosmwasm_std::Uint256::from_be_bytes(bytes));
    match cosmwasm_std::Uint256::from(weight).checked_mul_floor(d) {
        Err(_) => None,
        Ok(v) => match TryInto::<cosmwasm_std::Uint128>::try_into(v) {
            Err(_) => None,
            Ok(small) => Some(small.u128()),
        },
    }
}

} // verus!
