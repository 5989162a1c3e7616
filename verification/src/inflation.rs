use vstd::prelude::*;
use crate::coins::{views, Coin, CoinV};
use crate::errors::RewardsError;
use crate::incentive::secs;
use crate::index::FRAC_UNIT;
use crate::rates::{mul_floor_rate, mul_rate, Rate};
use crate::state::RewardsSM;
use crate::state_machine::delta_sum;

verus! {

/// Seconds in the year the inflation rate is quoted against.
pub const YEAR_SECONDS: u64 = 31_536_000;

/// The inflation module's own state: the reserve pool (absent when
/// empty) and the time of the last crank (absent until enabled).
pub struct InflationState {
    pub funds: Option<Coin>,
    pub last_update: Option<u64>,
}

/// The elapsed fraction of a year between two instants, as 18-decimal
/// atomics.
pub open spec fn year_frac(from: int, now: int) -> int {
    ((secs(now) - secs(from)) * (FRAC_UNIT as int)) / (YEAR_SECONDS as int)
}

/// The yearly rate scaled down to the elapsed interval.
pub open spec fn scaled_rate(rate: int, from: int, now: int) -> int {
    (rate * year_frac(from, now)) / (FRAC_UNIT as int)
}

/// The emission owed between the last crank (at `from`) and `now`,
/// before capping by the reserve: the total stake times the yearly rate
/// scaled by the elapsed fraction of a year, floored at each step.
pub open spec fn pending_amount(total: int, rate: int, from: int, now: int) -> int {
    (total * scaled_rate(rate, from, now)) / (FRAC_UNIT as int)
}

/// When the scaled rate or the owed emission leaves the 128-bit range,
/// which is the one way the pending computation can fail.
pub open spec fn pending_overflows(total: int, rate: int, from: int, now: int) -> bool {
    (rate * year_frac(from, now)) / (FRAC_UNIT as int) > u128::MAX || (total * scaled_rate(
        rate,
        from,
        now,
    )) / (FRAC_UNIT as int) > u128::MAX
}

/// What a crank at `now` would emit: the owed amount capped by the
/// reserve, zero when inflation was never enabled or the reserve is
/// empty.
pub open spec fn crank_emission(state: InflationState, total: int, rate: int, now: u64) -> int {
    match (state.funds, state.last_update) {
        (Some(f), Some(t)) => {
            let owed = pending_amount(total, rate, t as int, now as int);
            if owed <= f@.amount {
                owed
            } else {
                f@.amount
            }
        },
        _ => 0,
    }
}

/// What the reserve would keep after the pending emission: the guard an
/// inflation withdrawal must respect.
pub open spec fn remaining_after_pending(
    funds: Option<crate::coins::CoinV>,
    last: Option<u64>,
    total: int,
    rate: int,
    now: int,
) -> int {
    match (funds, last) {
        (Some(f), Some(t)) => {
            let owed = pending_amount(total, rate, t as int, now);
            if owed <= f.amount {
                f.amount - owed
            } else {
                0
            }
        },
        _ => 0,
    }
}

impl InflationState {
    #[verifier::spinoff_prover]
    pub fn new() -> (r: InflationState)
        ensures
            r.funds is None,
            r.last_update is None,
    {
        InflationState { funds: None, last_update: None }
    }

    /// The pending emission and what the reserve would keep: `None` when
    /// inflation was never enabled or the reserve is empty. A pure read.
    ///
    /// Fails only with `Overflow` when the scaled rate leaves its range.
    #[verifier::spinoff_prover]
    pub fn pending_inflation(&self, total_staked: u128, rate: Rate, now: u64) -> (r: Result<
        Option<(Coin, Coin)>,
        RewardsError,
    >)
        requires
            self.last_update matches Some(t) ==> t <= now,
        ensures
            r is Err <==> (self.last_update is Some && self.funds is Some && pending_overflows(
                total_staked as int,
                rate.num(),
                self.last_update->0 as int,
                now as int,
            )),
            match r {
                Ok(p) => {
                    &&& p is None <==> (self.last_update is None || self.funds is None)
                    &&& p matches Some((emitted, remaining)) ==> {
                        let f = self.funds->0;
                        let owed = pending_amount(
                            total_staked as int,
                            rate.num(),
                            self.last_update->0 as int,
                            now as int,
                        );
                        &&& emitted@.denom == f@.denom
                        &&& remaining@.denom == f@.denom
                        &&& emitted@.amount == (if owed <= f@.amount {
                            owed
                        } else {
                            f@.amount
                        })
                        &&& remaining@.amount == f@.amount - emitted@.amount
                    }
                },
                Err(e) => e == RewardsError::Overflow,
            },
    {
        let last = match &self.last_update {
            None => {
                return Ok(None);
            },
            Some(t) => *t,
        };
        let fcoin = match &self.funds {
            None => {
                return Ok(None);
            },
            Some(c) => c,
        };
        let elapsed: u64 = now / crate::incentive::NANOS_PER_SECOND - last
            / crate::incentive::NANOS_PER_SECOND;
        proof {
            assert(elapsed as int == secs(now as int) - secs(last as int)) by {
                vstd::arithmetic::div_mod::lemma_div_is_ordered(
                    last as int,
                    now as int,
                    crate::incentive::NANOS_PER_SECOND as int,
                );
            }
            assert(elapsed as int * (FRAC_UNIT as int) <= u128::MAX) by (nonlinear_arith)
                requires
                    0 <= elapsed <= u64::MAX,
            ;
        }
        let frac = Rate { atomics: (elapsed as u128) * FRAC_UNIT / (YEAR_SECONDS as u128) };
        let scaled = match mul_rate(rate, frac) {
            Some(v) => v,
            None => {
                return Err(RewardsError::Overflow);
            },
        };
        let owed = match mul_floor_rate(total_staked, scaled) {
            Some(v) => v,
            None => {
                return Err(RewardsError::Overflow);
            },
        };
        let emitted_amount = if owed <= fcoin.amount {
            owed
        } else {
            fcoin.amount
        };
        let emitted = Coin { denom: fcoin.denom.clone(), amount: emitted_amount };
        let remaining = Coin { denom: fcoin.denom.clone(), amount: fcoin.amount - emitted_amount };
        Ok(Some((emitted, remaining)))
    }

    /// Materialises the pending emission: stamps the crank time, hands
    /// the emitted coin to the ledger, and shrinks the reserve (removing
    /// it once empty). Nothing but the stamp changes when nothing is
    /// owed. On failure everything is unchanged.
    #[verifier::spinoff_prover]
    pub fn crank(&mut self, sm: &mut RewardsSM, rate: Rate, now: u64) -> (r: Result<
        Vec<Coin>,
        RewardsError,
    >)
        requires
            old(self).last_update matches Some(t) ==> t <= now,
            old(sm).wf(),
        ensures
            final(sm).wf(),
            r is Err <==> (old(self).last_update is Some && old(self).funds is Some && (
            pending_overflows(
                old(sm).total_staked as int,
                rate.num(),
                old(self).last_update->0 as int,
                now as int,
            ) || (crank_emission(*old(self), old(sm).total_staked as int, rate.num(), now) > 0
                && exists|d: Seq<char>|
                (#[trigger] old(sm).index_num(d)) + delta_sum(
                    seq![
                        CoinV {
                            denom: old(self).funds->0@.denom,
                            amount: crank_emission(
                                *old(self),
                                old(sm).total_staked as int,
                                rate.num(),
                                now,
                            ),
                        },
                    ],
                    d,
                    old(sm).total_staked as int,
                ) >= crate::index::index_bound()))),
            match r {
                Ok(coins) => {
                    let emit = crank_emission(
                        *old(self),
                        old(sm).total_staked as int,
                        rate.num(),
                        now,
                    );
                    &&& final(self).last_update == Some(now)
                    &&& coins@.len() <= 1
                    &&& (coins@.len() == 1 <==> emit > 0)
                    &&& (coins@.len() == 0 ==> final(self).funds == old(self).funds && *final(sm)
                        == *old(sm))
                    &&& (coins@.len() == 1 ==> {
                        let f = old(self).funds->0;
                        &&& old(self).funds is Some
                        &&& crate::laws::distribute_step(*old(sm), *final(sm), views(coins@))
                        &&& coins@[0]@.denom == f@.denom
                        &&& coins@[0]@.amount == emit
                        &&& (match final(self).funds {
                            None => f@.amount - emit == 0,
                            Some(rem) => rem@.denom == f@.denom && rem@.amount == f@.amount - emit,
                        })
                    })
                },
                Err(e) => {
                    &&& *final(self) == *old(self)
                    &&& *final(sm) == *old(sm)
                    &&& e == RewardsError::Overflow
                },
            },
    {
        let total = sm.total_staked();
        let pending = match self.pending_inflation(total, rate, now) {
            Err(e) => {
                return Err(e);
            },
            Ok(p) => p,
        };
        match pending {
            None => {
                self.last_update = Some(now);
                Ok(Vec::new())
            },
            Some((emitted, remaining)) => {
                if emitted.amount == 0 {
                    self.last_update = Some(now);
                    return Ok(Vec::new());
                }
                let mut coins: Vec<Coin> = Vec::new();
                coins.push(emitted);
                proof {
                    assert(views(coins@) =~= seq![
                        CoinV { denom: old(self).funds->0@.denom, amount: emitted@.amount },
                    ]);
                    // nothing is owed against an empty pool, so something
                    // emitted means something is staked
                    if old(sm).total_staked == 0 {
                        let ghost sc = scaled_rate(
                            rate.num(),
                            old(self).last_update->0 as int,
                            now as int,
                        );
                        assert(0int * sc == 0) by {
                            vstd::arithmetic::mul::lemma_mul_basics(sc);
                        }
                        vstd::arithmetic::div_mod::lemma_div_of0(FRAC_UNIT as int);
                        assert(false);
                    }
                }
                match sm.distribute_rewards(&coins) {
                    Err(e) => Err(e),
                    Ok(()) => {
                        proof {
                            assert forall|d: Seq<char>| #[trigger]
                                crate::state_machine::coin_in(views(coins@), d)
                                    <==> crate::state_machine::has_denom(coins@, d) by {
                                if crate::state_machine::has_denom(coins@, d) {
                                    let k = choose|k: int|
                                        0 <= k < coins@.len() && coins@[k].denom@ == d;
                                    assert(views(coins@)[k].denom == d);
                                }
                                if crate::state_machine::coin_in(views(coins@), d) {
                                    let k = choose|k: int|
                                        0 <= k < views(coins@).len() && views(coins@)[k].denom
                                            == d;
                                    assert(coins@[k].denom@ == d);
                                }
                            }
                        }
                        self.last_update = Some(now);
                        if remaining.amount == 0 {
                            self.funds = None;
                        } else {
                            self.funds = Some(remaining);
                        }
                        Ok(coins)
                    },
                }
            },
        }
    }

    /// Adds to the reserve; the first funding fixes its denom, later
    /// ones must match it. Fails with `DenomMismatch` on another denom
    /// and with `Overflow` when the reserve leaves its range, leaving
    /// everything unchanged.
    #[verifier::spinoff_prover]
    pub fn fund(&mut self, deposit: Coin) -> (r: Result<(), RewardsError>)
        ensures
            final(self).last_update == old(self).last_update,
            r is Err <==> (old(self).funds matches Some(p) && (p@.denom != deposit@.denom
                || p@.amount + deposit@.amount > u128::MAX)),
            match r {
                Ok(()) => match old(self).funds {
                    None => final(self).funds matches Some(f) && f@ == deposit@,
                    Some(prev) => final(self).funds matches Some(f) && f@.denom == prev@.denom
                        && f@.amount == prev@.amount + deposit@.amount,
                },
                Err(e) => {
                    &&& *final(self) == *old(self)
                    &&& (e == RewardsError::DenomMismatch <==> (old(self).funds matches Some(p)
                        && p@.denom != deposit@.denom))
                    &&& (e == RewardsError::Overflow <==> (old(self).funds matches Some(p)
                        && p@.denom == deposit@.denom && p@.amount + deposit@.amount > u128::MAX))
                },
            },
    {
        match &self.funds {
            None => {
                self.funds = Some(deposit);
                Ok(())
            },
            Some(existing) => {
                if !crate::denoms::str_eq(existing.denom.as_str(), deposit.denom.as_str()) {
                    return Err(RewardsError::DenomMismatch);
                }
                if deposit.amount > u128::MAX - existing.amount {
                    return Err(RewardsError::Overflow);
                }
                let merged = Coin {
                    denom: deposit.denom,
                    amount: existing.amount + deposit.amount,
                };
                proof {
                    assert(merged@.denom == old(self).funds->0@.denom);
                }
                self.funds = Some(merged);
                Ok(())
            },
        }
    }

    /// Takes `amount` out of the reserve, but only what the pending
    /// emission does not already owe the stakers; the reserve row is
    /// removed when it reaches zero. Fails with `InsufficientInflation`
    /// when the reserve (less the pending emission) cannot cover the
    /// withdrawal or does not exist, leaving everything unchanged.
    #[verifier::spinoff_prover]
    pub fn withdraw(&mut self, total_staked: u128, rate: Rate, now: u64, amount: u128) -> (r:
        Result<Coin, RewardsError>)
        requires
            old(self).last_update matches Some(t) ==> t <= now,
        ensures
            final(self).last_update == old(self).last_update,
            r is Err <==> ((old(self).funds is Some && old(self).last_update is Some
                && pending_overflows(
                total_staked as int,
                rate.num(),
                old(self).last_update->0 as int,
                now as int,
            )) || old(self).funds is None || amount > remaining_after_pending(
                match old(self).funds {
                    Some(f) => Some(f@),
                    None => None,
                },
                old(self).last_update,
                total_staked as int,
                rate.num(),
                now as int,
            )),
            match r {
                Ok(c) => {
                    &&& old(self).funds matches Some(f)
                    &&& c@.denom == old(self).funds->0@.denom
                    &&& c@.amount == amount
                    &&& (match final(self).funds {
                        None => old(self).funds->0@.amount - amount == 0,
                        Some(rem) => rem@.denom == old(self).funds->0@.denom && rem@.amount == old(
                            self,
                        ).funds->0@.amount - amount,
                    })
                },
                Err(e) => {
                    &&& *final(self) == *old(self)
                    &&& (e == RewardsError::Overflow <==> (old(self).funds is Some && old(
                        self,
                    ).last_update is Some && pending_overflows(
                        total_staked as int,
                        rate.num(),
                        old(self).last_update->0 as int,
                        now as int,
                    )))
                    &&& (e == RewardsError::InsufficientInflation || e == RewardsError::Overflow)
                },
            },
    {
        let remaining: u128 = match self.pending_inflation(total_staked, rate, now) {
            Err(e) => {
                return Err(e);
            },
            Ok(None) => 0,
            Ok(Some((_emitted, rem))) => rem.amount,
        };
        let existing = match &self.funds {
            None => {
                return Err(RewardsError::InsufficientInflation);
            },
            Some(c) => c,
        };
        if amount > remaining {
            return Err(RewardsError::InsufficientInflation);
        }
        proof {
            assert(amount <= existing.amount);
        }
        let denom = existing.denom.clone();
        let left = existing.amount - amount;
        if left == 0 {
            self.funds = None;
        } else {
            self.funds = Some(Coin { denom: existing.denom.clone(), amount: left });
        }
        Ok(Coin { denom, amount })
    }
}

} // verus!
