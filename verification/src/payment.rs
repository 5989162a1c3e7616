use vstd::prelude::*;
use crate::coins::{views, Coin, CoinV};
use crate::denoms::str_eq;
use crate::errors::RewardsError;

verus! {

/// The single attached coin. Fails with `NoFunds` when nothing (or a
/// zero amount) was attached and with `MultipleDenoms` when more than
/// one coin was.
#[verifier::spinoff_prover]
pub fn one_coin(funds: &Vec<Coin>) -> (r: Result<Coin, RewardsError>)
    ensures
        match r {
            Ok(c) => funds@.len() == 1 && c@ == funds@[0]@ && c@.amount > 0,
            Err(RewardsError::NoFunds) => funds@.len() == 0 || (funds@.len() == 1
                && funds@[0]@.amount == 0),
            Err(RewardsError::MultipleDenoms) => funds@.len() > 1,
            Err(_) => false,
        },
{
    if funds.len() == 0 {
        Err(RewardsError::NoFunds)
    } else if funds.len() > 1 {
        Err(RewardsError::MultipleDenoms)
    } else {
        let c = funds[0].clone();
        if c.amount == 0 {
            Err(RewardsError::NoFunds)
        } else {
            Ok(c)
        }
    }
}

/// The amount of the single attached coin, which must carry exactly the
/// asked-for denom; `MissingDenom` otherwise.
#[verifier::spinoff_prover]
pub fn must_pay(funds: &Vec<Coin>, denom: &String) -> (r: Result<u128, RewardsError>)
    ensures
        match r {
            Ok(a) => funds@.len() == 1 && funds@[0]@.denom == denom@ && a == funds@[0]@.amount
                && a > 0,
            Err(RewardsError::NoFunds) => funds@.len() == 0 || (funds@.len() == 1
                && funds@[0]@.amount == 0),
            Err(RewardsError::MultipleDenoms) => funds@.len() > 1,
            Err(RewardsError::MissingDenom) => funds@.len() == 1 && funds@[0]@.amount > 0
                && funds@[0]@.denom != denom@,
            Err(_) => false,
        },
{
    match one_coin(funds) {
        Err(e) => Err(e),
        Ok(c) => {
            if str_eq(c.denom.as_str(), denom.as_str()) {
                Ok(c.amount)
            } else {
                Err(RewardsError::MissingDenom)
            }
        },
    }
}

/// Takes `fee` out of the funds list, first-match by denom, exactly as
/// an attached fee is collected: the matching entry shrinks (and leaves
/// the list when it reaches zero). Fails when no entry carries the denom
/// or the first one carrying it is too small.
#[verifier::spinoff_prover]
pub fn sub_first_coin(funds: &Vec<Coin>, fee: &Coin) -> (r: Result<Vec<Coin>, RewardsError>)
    ensures
        match r {
            Ok(v) => exists|i: int|
                0 <= i < funds@.len() && (#[trigger] funds@[i]@).denom == fee@.denom
                    && funds@[i]@.amount >= fee@.amount && (forall|k: int|
                    0 <= k < i ==> (#[trigger] funds@[k]@).denom != fee@.denom) && (
                if funds@[i]@.amount == fee@.amount {
                    views(v@) =~= views(funds@).remove(i)
                } else {
                    views(v@) =~= views(funds@).update(
                        i,
                        CoinV { denom: fee@.denom, amount: funds@[i]@.amount - fee@.amount },
                    )
                }),
            Err(e) => e == RewardsError::InvalidIncentive,
        },
{
    let mut i: usize = 0;
    while i < funds.len()
        invariant
            i <= funds@.len(),
            forall|k: int| 0 <= k < i ==> (#[trigger] funds@[k]@).denom != fee@.denom,
        decreases funds@.len() - i,
    {
        if str_eq(funds[i].denom.as_str(), fee.denom.as_str()) {
            if funds[i].amount < fee.amount {
                return Err(RewardsError::InvalidIncentive);
            }
            let mut out: Vec<Coin> = Vec::new();
            let mut k: usize = 0;
            while k < funds.len()
                invariant
                    k <= funds@.len(),
                    i < funds@.len(),
                    funds@[i as int]@.denom == fee@.denom,
                    funds@[i as int]@.amount >= fee@.amount,
                    (if funds@[i as int]@.amount == fee@.amount {
                        views(out@) =~= views(funds@).remove(i as int).take(
                            if k <= i {
                                k as int
                            } else {
                                k - 1
                            },
                        )
                    } else {
                        views(out@) =~= views(funds@).update(
                            i as int,
                            CoinV {
                                denom: fee@.denom,
                                amount: funds@[i as int]@.amount - fee@.amount,
                            },
                        ).take(k as int)
                    }),
                decreases funds@.len() - k,
            {
                if k == i {
                    if funds[i].amount > fee.amount {
                        out.push(
                            Coin {
                                denom: fee.denom.clone(),
                                amount: funds[i].amount - fee.amount,
                            },
                        );
                    }
                } else {
                    out.push(funds[k].clone());
                }
                proof {
                    if funds@[i as int]@.amount == fee@.amount {
                        assert(views(out@) =~= views(funds@).remove(i as int).take(
                            if k + 1 <= i {
                                k + 1
                            } else {
                                k as int
                            },
                        ));
                    } else {
                        assert(views(out@) =~= views(funds@).update(
                            i as int,
                            CoinV {
                                denom: fee@.denom,
                                amount: funds@[i as int]@.amount - fee@.amount,
                            },
                        ).take(k + 1));
                    }
                }
                k = k + 1;
            }
            proof {
                if funds@[i as int]@.amount == fee@.amount {
                    assert(views(out@) =~= views(funds@).remove(i as int));
                } else {
                    assert(views(out@) =~= views(funds@).update(
                        i as int,
                        CoinV {
                            denom: fee@.denom,
                            amount: funds@[i as int]@.amount - fee@.amount,
                        },
                    ));
                }
            }
            return Ok(out);
        }
        i = i + 1;
    }
    Err(RewardsError::InvalidIncentive)
}

} // verus!
