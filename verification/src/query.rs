use vstd::prelude::*;
use crate::coins::{add_coin, amount_of, views, wf_coins, Coin, CoinV};
use crate::contract::ContractState;
use crate::denoms::{lex_lt, str_lt};
use crate::errors::RewardsError;
use crate::fold::{fold_coins, fold_fits};
use crate::incentive::{crank_coins, is_stalest_selection, Schedule};
use crate::inflation::{crank_emission, remaining_after_pending};
use crate::state::row_views;
use crate::state_machine::share_of;

verus! {

/// Merges a normalized list with any list of positive coins, denom by
/// denom. Fails exactly when some denom's combined total leaves the
/// 128-bit range.
#[verifier::spinoff_prover]
pub fn merge_coins(base: Vec<Coin>, extra: &Vec<Coin>) -> (r: Result<Vec<Coin>, RewardsError>)
    requires
        wf_coins(views(base@)),
        crate::coins::positive_coins(views(extra@)),
    ensures
        r is Err <==> exists|d: Seq<char>|
            #[trigger] amount_of(views(base@), d) + amount_of(views(extra@), d) > u128::MAX,
        match r {
            Ok(out) => wf_coins(views(out@)) && forall|d: Seq<char>|
                #[trigger] amount_of(views(out@), d) == amount_of(views(base@), d) + amount_of(
                    views(extra@),
                    d,
                ),
            Err(e) => e == RewardsError::Overflow,
        },
{
    let mut out = base;
    let mut i: usize = 0;
    proof {
        assert(views(extra@).take(0) =~= Seq::<CoinV>::empty());
    }
    while i < extra.len()
        invariant
            i <= extra@.len(),
            wf_coins(views(out@)),
            crate::coins::positive_coins(views(extra@)),
            forall|d: Seq<char>|
                #[trigger] amount_of(views(out@), d) == amount_of(views(base@), d) + amount_of(
                    views(extra@).take(i as int),
                    d,
                ),
        decreases extra@.len() - i,
    {
        let c = extra[i].clone();
        proof {
            assert(views(extra@).take(i + 1) =~= views(extra@).take(i as int).push(
                views(extra@)[i as int],
            ));
            assert forall|d: Seq<char>|
                #[trigger] amount_of(views(extra@).take(i + 1), d) == amount_of(
                    views(extra@).take(i as int),
                    d,
                ) + crate::coins::part_of(c@, d) by {
                crate::coins::lemma_amount_of_push(
                    views(extra@).take(i as int),
                    views(extra@)[i as int],
                    d,
                );
            }
        }
        let ok = add_coin(&mut out, c);
        if !ok {
            proof {
                let d = c@.denom;
                assert(amount_of(views(out@), d) + c@.amount > u128::MAX);
                assert(forall|k: int|
                    0 <= k < views(extra@).len() ==> (#[trigger] views(extra@)[k]).amount >= 0);
                assert(views(extra@) =~= views(extra@).take(i + 1) + views(extra@).skip(i + 1));
                crate::coins::lemma_amount_of_concat(
                    views(extra@).take(i + 1),
                    views(extra@).skip(i + 1),
                    d,
                );
                assert(forall|k: int|
                    0 <= k < views(extra@).skip(i + 1).len() ==> (#[trigger] views(extra@).skip(
                        i + 1,
                    )[k]).amount >= 0);
                crate::coins::lemma_amount_of_nonneg(views(extra@).skip(i + 1), d);
                assert(amount_of(views(base@), d) + amount_of(views(extra@), d) > u128::MAX);
            }
            return Err(RewardsError::Overflow);
        }
        i = i + 1;
    }
    proof {
        assert(views(extra@).take(extra@.len() as int) =~= views(extra@));
        assert forall|d: Seq<char>| true implies !(#[trigger] amount_of(views(base@), d)
            + amount_of(views(extra@), d) > u128::MAX) by {
            assert(forall|k: int|
                0 <= k < views(out@).len() ==> (#[trigger] views(out@)[k]).amount <= u128::MAX);
            crate::coins::lemma_amount_of_bounded(views(out@), d);
        }
    }
    Ok(out)
}

/// Whether `lri` is exactly what the bounded incentive crank would
/// release right now (empty when the module is off or nothing is
/// staked).
pub open spec fn lri_witness(state: ContractState, now: u64, lri: Seq<CoinV>) -> bool {
    if state.config.incentive_module is Some && state.sm.total_staked > 0 {
        exists|sel: Seq<usize>|
            #[trigger] is_stalest_selection(
                state.incentives.incentives@,
                state.config.incentive_module->0.crank_limit as int,
                sel,
            ) && lri == crank_coins(state.incentives.incentives@, sel, now)
    } else {
        lri == Seq::<CoinV>::empty()
    }
}

/// The per-denom total `staker` is owed across every configured source:
/// the accrued fold, plus their proportional share of the crankable
/// incentives, of the underlying contract's reported rewards, and of
/// the pending inflation emission.
pub open spec fn pending_total(
    state: ContractState,
    staker: Seq<char>,
    now: u64,
    up: Option<Vec<Coin>>,
    lri: Seq<CoinV>,
    d: Seq<char>,
) -> int {
    let w = state.sm.weight_of(staker);
    let total = state.sm.total_staked as int;
    amount_of(
        fold_coins(state.sm.global_indices@, row_views(state.sm.user_rewards@), staker, w),
        d,
    ) + (if state.sm.total_staked > 0 {
        share_of(lri, d, w, total) + (if state.config.underlying_rewards_module is Some
            && up is Some {
            share_of(views(up->0@), d, w, total)
        } else {
            0
        }) + (if state.config.inflation_module is Some && state.inflation.last_update is Some
            && state.inflation.funds is Some {
            share_of(
                seq![
                    CoinV {
                        denom: state.inflation.funds->0@.denom,
                        amount: crank_emission(
                            state.inflation,
                            total,
                            state.config.inflation_module->0.rate_per_year.num(),
                            now,
                        ),
                    },
                ],
                d,
                w,
                total,
            )
        } else {
            0
        })
    } else {
        0
    })
}

/// Everything `staker` would receive if they claimed now, across all
/// configured sources. A pure read; the result is normalized and its
/// per-denom amounts are exactly the owed totals.
#[verifier::rlimit(100)]
#[verifier::spinoff_prover]
pub fn pending_rewards(
    state: &ContractState,
    staker: &String,
    now: u64,
    underlying_pending: &Option<Vec<Coin>>,
) -> (r: Result<Vec<Coin>, RewardsError>)
    requires
        state.wf(),
        state.inflation.last_update matches Some(t) ==> t <= now,
    ensures
        match r {
            Ok(out) => wf_coins(views(out@)) && exists|lri: Seq<CoinV>|
                #[trigger] lri_witness(*state, now, lri) && (forall|d: Seq<char>|
                    #[trigger] amount_of(views(out@), d) == pending_total(
                        *state,
                        staker@,
                        now,
                        *underlying_pending,
                        lri,
                        d,
                    )),
            Err(e) => e == RewardsError::Overflow,
        },
        (state.sm.total_staked == 0 && fold_fits(
            state.sm.global_indices@,
            row_views(state.sm.user_rewards@),
            staker@,
            state.sm.weight_of(staker@),
        )) ==> r is Ok,
        r is Err ==> !fold_fits(
            state.sm.global_indices@,
            row_views(state.sm.user_rewards@),
            staker@,
            state.sm.weight_of(staker@),
        ) || state.sm.total_staked > 0,
{
    let ghost w = state.sm.weight_of(staker@);
    let mut users: Vec<String> = Vec::new();
    users.push(staker.clone());
    let mut acc = match state.sm.get_accrued(staker) {
        Err(e) => {
            return Err(e);
        },
        Ok(c) => c,
    };
    let ghost fold_part = fold_coins(
        state.sm.global_indices@,
        row_views(state.sm.user_rewards@),
        staker@,
        w,
    );
    if state.sm.total_staked() > 0 {
        let ghost total = state.sm.total_staked as int;
        let ghost mut lri_v: Seq<CoinV> = Seq::empty();
        match &state.config.incentive_module {
            None => {},
            Some(cfg) => {
                let lri = state.incentives.get_lri(cfg.crank_limit, now);
                proof {
                    lri_v = views(lri@);
                    assert(state.config.incentive_module->0.crank_limit == cfg.crank_limit);
                }
                let shares = match state.sm.calculate_users_rewards(&users, &lri) {
                    Err(e) => {
                        return Err(e);
                    },
                    Ok(s) => s,
                };
                if shares.len() > 0 {
                    let mut s0 = shares;
                    let (_, coins) = s0.remove(0);
                    proof {
                        assert(users@[0]@ == staker@);
                    }
                    acc = match merge_coins(acc, &coins) {
                        Err(e) => {
                            return Err(e);
                        },
                        Ok(m) => m,
                    };
                }
            },
        }
        let ghost after_lri = views(acc@);
        match (&state.config.underlying_rewards_module, underlying_pending) {
            (Some(_), Some(pending)) => {
                let shares = match state.sm.calculate_users_rewards(&users, pending) {
                    Err(e) => {
                        return Err(e);
                    },
                    Ok(s) => s,
                };
                if shares.len() > 0 {
                    let mut s0 = shares;
                    let (_, coins) = s0.remove(0);
                    proof {
                        assert(users@[0]@ == staker@);
                    }
                    acc = match merge_coins(acc, &coins) {
                        Err(e) => {
                            return Err(e);
                        },
                        Ok(m) => m,
                    };
                }
            },
            _ => {},
        }
        let ghost after_up = views(acc@);
        match &state.config.inflation_module {
            None => {},
            Some(cfg) => {
                let pending = match state.inflation.pending_inflation(
                    state.sm.total_staked(),
                    cfg.rate_per_year,
                    now,
                ) {
                    Err(e) => {
                        return Err(e);
                    },
                    Ok(p) => p,
                };
                match pending {
                    None => {},
                    Some((emitted, _remaining)) => {
                        let mut one: Vec<Coin> = Vec::new();
                        one.push(emitted);
                        proof {
                            assert(views(one@) =~= seq![
                                CoinV {
                                    denom: state.inflation.funds->0@.denom,
                                    amount: crank_emission(
                                        state.inflation,
                                        total,
                                        state.config.inflation_module->0.rate_per_year.num(),
                                        now,
                                    ),
                                },
                            ]);
                        }
                        let shares = match state.sm.calculate_users_rewards(&users, &one) {
                            Err(e) => {
                                return Err(e);
                            },
                            Ok(s) => s,
                        };
                        if shares.len() > 0 {
                            let mut s0 = shares;
                            let (_, coins) = s0.remove(0);
                            proof {
                                assert(users@[0]@ == staker@);
                            }
                            acc = match merge_coins(acc, &coins) {
                                Err(e) => {
                                    return Err(e);
                                },
                                Ok(m) => m,
                            };
                        }
                    },
                }
            },
        }
        proof {
            assert(lri_witness(*state, now, lri_v));
            assert forall|d: Seq<char>|
                #[trigger] amount_of(views(acc@), d) == pending_total(
                    *state,
                    staker@,
                    now,
                    *underlying_pending,
                    lri_v,
                    d,
                ) by {}
        }
    } else {
        proof {
            assert(lri_witness(*state, now, Seq::<CoinV>::empty()));
            assert forall|d: Seq<char>|
                #[trigger] amount_of(views(acc@), d) == pending_total(
                    *state,
                    staker@,
                    now,
                    *underlying_pending,
                    Seq::<CoinV>::empty(),
                    d,
                ) by {}
        }
    }
    Ok(acc)
}

/// The staker's current weight.
#[verifier::spinoff_prover]
pub fn stake_info(state: &ContractState, staker: &String) -> (r: u128)
    requires
        state.wf(),
    ensures
        r as int == state.sm.weight_of(staker@),
{
    state.sm.get_weight(staker)
}

/// A page of the weight table: exactly the first up-to-`limit` stored
/// entries whose account sorts strictly after `start_after`, in stored
/// (ascending) order.
#[verifier::spinoff_prover]
pub fn weights(state: &ContractState, start_after: Option<&String>, limit: usize) -> (r: Vec<
    (String, u128),
>)
    requires
        state.wf(),
    ensures
        exists|s: int|
            {
                &&& 0 <= #[trigger] (s * 1) <= state.sm.user_weights@.len()
                &&& (forall|k: int|
                    0 <= k < s ==> !(match start_after {
                        Some(sa) => lex_lt(sa@, (#[trigger] state.sm.user_weights@[k]).user@),
                        None => true,
                    }))
                &&& (s < state.sm.user_weights@.len() ==> (match start_after {
                    Some(sa) => lex_lt(sa@, state.sm.user_weights@[s as int].user@),
                    None => true,
                }))
                &&& r@.len() == vstd::math::min(
                    limit as int,
                    state.sm.user_weights@.len() - s,
                )
                &&& (forall|i: int|
                    0 <= i < r@.len() ==> (#[trigger] r@[i]).0@ == state.sm.user_weights@[s
                        + i].user@ && r@[i].1 == state.sm.user_weights@[s + i].amount)
            },
{
    let n = state.sm.user_weights.len();
    let mut s: usize = 0;
    match start_after {
        None => {},
        Some(sa) => {
            while s < n && !str_lt(sa.as_str(), state.sm.user_weights[s].user.as_str())
                invariant
                    s <= n,
                    n == state.sm.user_weights@.len(),
                    state.wf(),
                    start_after matches Some(sa2) && sa2@ == sa@,
                    forall|k: int|
                        0 <= k < s ==> !lex_lt(sa@, (#[trigger] state.sm.user_weights@[k]).user@),
                decreases n - s,
            {
                s = s + 1;
            }
        },
    }
    let mut out: Vec<(String, u128)> = Vec::new();
    let mut k: usize = s;
    while k < n && out.len() < limit
        invariant
            s <= k <= n,
            n == state.sm.user_weights@.len(),
            state.wf(),
            out@.len() == k - s,
            out@.len() <= limit,
            forall|i: int|
                0 <= i < out@.len() ==> (#[trigger] out@[i]).0@ == state.sm.user_weights@[s
                    + i].user@ && out@[i].1 == state.sm.user_weights@[s + i].amount,
        decreases n - k,
    {
        let e = &state.sm.user_weights[k];
        out.push((e.user.clone(), e.amount));
        k = k + 1;
    }
    proof {
        let ghost si = s as int;
        assert(0 <= si * 1 <= state.sm.user_weights@.len());
    }
    out
}

/// A page of the incentive registry: exactly the first up-to-`limit`
/// stored incentives with id strictly beyond `start_after`, ascending by
/// id, each as its denom and schedule.
#[verifier::spinoff_prover]
pub fn incentives_page(state: &ContractState, start_after: Option<u128>, limit: usize) -> (r: Vec<
    (String, Schedule),
>)
    requires
        state.wf(),
    ensures
        exists|s: int|
            {
                &&& 0 <= #[trigger] (s * 1) <= state.incentives.incentives@.len()
                &&& (forall|k: int|
                    0 <= k < s ==> !(match start_after {
                        Some(sa) => (#[trigger] state.incentives.incentives@[k]).id > sa,
                        None => true,
                    }))
                &&& (s < state.incentives.incentives@.len() ==> (match start_after {
                    Some(sa) => state.incentives.incentives@[s as int].id > sa,
                    None => true,
                }))
                &&& r@.len() == vstd::math::min(
                    limit as int,
                    state.incentives.incentives@.len() - s,
                )
                &&& (forall|i: int|
                    0 <= i < r@.len() ==> (#[trigger] r@[i]).0@ == state.incentives.incentives@[s
                        + i].denom@ && r@[i].1 == state.incentives.incentives@[s + i].schedule)
            },
{
    let n = state.incentives.incentives.len();
    let mut s: usize = 0;
    match start_after {
        None => {},
        Some(sa) => {
            while s < n && state.incentives.incentives[s].id <= sa
                invariant
                    s <= n,
                    n == state.incentives.incentives@.len(),
                    state.wf(),
                    start_after == Some(sa),
                    forall|k: int|
                        0 <= k < s ==> !((#[trigger] state.incentives.incentives@[k]).id > sa),
                decreases n - s,
            {
                s = s + 1;
            }
        },
    }
    let mut out: Vec<(String, Schedule)> = Vec::new();
    let mut k: usize = s;
    while k < n && out.len() < limit
        invariant
            s <= k <= n,
            n == state.incentives.incentives@.len(),
            state.wf(),
            out@.len() == k - s,
            out@.len() <= limit,
            forall|i: int|
                0 <= i < out@.len() ==> (#[trigger] out@[i]).0@ == state.incentives.incentives@[s
                    + i].denom@ && out@[i].1 == state.incentives.incentives@[s + i].schedule,
        decreases n - k,
    {
        let e = &state.incentives.incentives[k];
        out.push((e.denom.clone(), e.schedule));
        k = k + 1;
    }
    proof {
        let ghost si = s as int;
        assert(0 <= si * 1 <= state.incentives.incentives@.len());
    }
    out
}

/// The inflation rate and the reserve that would remain after the
/// pending emission; fails when the module is not configured or the
/// pending computation overflows.
#[verifier::spinoff_prover]
pub fn inflation_info(state: &ContractState, now: u64) -> (r: Result<
    (crate::rates::Rate, Option<Coin>),
    RewardsError,
>)
    requires
        state.wf(),
        state.inflation.last_update matches Some(t) ==> t <= now,
    ensures
        match r {
            Ok((rate, funds)) => {
                &&& state.config.inflation_module matches Some(cfg) && rate == cfg.rate_per_year
                &&& (funds is Some <==> (state.inflation.last_update is Some
                    && state.inflation.funds is Some))
                &&& (funds matches Some(f) ==> f@.denom == state.inflation.funds->0@.denom
                    && f@.amount == remaining_after_pending(
                    match state.inflation.funds {
                        Some(c) => Some(c@),
                        None => None,
                    },
                    state.inflation.last_update,
                    state.sm.total_staked as int,
                    rate.num(),
                    now as int,
                ))
            },
            Err(e) => {
                &&& (e == RewardsError::InflationNotEnabled <==> state.config.inflation_module
                    is None)
                &&& (e == RewardsError::InflationNotEnabled || e == RewardsError::Overflow)
            },
        },
{
    let rate = match &state.config.inflation_module {
        None => {
            return Err(RewardsError::InflationNotEnabled);
        },
        Some(cfg) => cfg.rate_per_year,
    };
    let pending = match state.inflation.pending_inflation(state.sm.total_staked(), rate, now) {
        Err(e) => {
            return Err(e);
        },
        Ok(p) => p,
    };
    match pending {
        None => Ok((rate, None)),
        Some((_emitted, remaining)) => Ok((rate, Some(remaining))),
    }
}

} // verus!
