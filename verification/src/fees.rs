use vstd::prelude::*;
use vstd::arithmetic::div_mod::{lemma_div_is_ordered, lemma_div_multiples_vanish,
    lemma_div_pos_is_pos, lemma_fundamental_div_mod, lemma_mod_bound};
use vstd::arithmetic::mul::{lemma_mul_inequality, lemma_mul_is_commutative,
    lemma_mul_is_distributive_add, lemma_mul_is_distributive_add_other_way, lemma_mul_nonnegative};
use crate::coins::{amount_of, views, Coin, CoinV};
use crate::index::FRAC_UNIT;
use crate::rates::{mul_floor_rate, Rate};

verus! {

/// The summed numerators of a fee table's rates.
pub open spec fn rate_sum(fees: Seq<(Rate, String)>) -> int
    decreases fees.len(),
{
    if fees.len() == 0 {
        0
    } else {
        fees[0].0.num() + rate_sum(fees.skip(1))
    }
}

/// One fee's floored cut of an amount.
pub open spec fn share_amt(amount: int, rate: int) -> int {
    (amount * rate) / (FRAC_UNIT as int)
}

/// The total cut all fees take from one amount (each computed on the
/// original amount, then subtracted at once).
pub open spec fn fee_cut(amount: int, fees: Seq<(Rate, String)>) -> int
    decreases fees.len(),
{
    if fees.len() == 0 {
        0
    } else {
        share_amt(amount, fees[0].0.num()) + fee_cut(amount, fees.skip(1))
    }
}

/// The coins one fee entry receives: each reward coin's floored cut, in
/// reward order, zero cuts left out.
pub open spec fn entry_coins(rs: Seq<CoinV>, rate: int) -> Seq<CoinV>
    decreases rs.len(),
{
    if rs.len() == 0 {
        Seq::empty()
    } else {
        (if share_amt(rs[0].amount, rate) > 0 {
            seq![CoinV { denom: rs[0].denom, amount: share_amt(rs[0].amount, rate) }]
        } else {
            Seq::empty()
        }) + entry_coins(rs.skip(1), rate)
    }
}

/// The recipients' payouts: one pair per fee entry, in fee order,
/// entries that receive nothing left out.
pub open spec fn split_recipients(rs: Seq<CoinV>, fees: Seq<(Rate, String)>) -> Seq<
    (Seq<char>, Seq<CoinV>),
>
    decreases fees.len(),
{
    if fees.len() == 0 {
        Seq::empty()
    } else {
        (if entry_coins(rs, fees[0].0.num()).len() > 0 {
            seq![(fees[0].1@, entry_coins(rs, fees[0].0.num()))]
        } else {
            Seq::empty()
        }) + split_recipients(rs, fees.skip(1))
    }
}

/// What stays of the rewards once every fee's cut is taken: per coin the
/// remainder, coins fully consumed left out.
pub open spec fn residual(rs: Seq<CoinV>, fees: Seq<(Rate, String)>) -> Seq<CoinV>
    decreases rs.len(),
{
    if rs.len() == 0 {
        Seq::empty()
    } else {
        (if rs[0].amount - fee_cut(rs[0].amount, fees) > 0 {
            seq![
                CoinV {
                    denom: rs[0].denom,
                    amount: rs[0].amount - fee_cut(rs[0].amount, fees),
                },
            ]
        } else {
            Seq::empty()
        }) + residual(rs.skip(1), fees)
    }
}

/// A fee rate never exceeds the whole table's sum.
#[verifier::spinoff_prover]
proof fn lemma_rate_le_sum(fees: Seq<(Rate, String)>, i: int)
    requires
        0 <= i < fees.len(),
    ensures
        fees[i].0.num() <= rate_sum(fees),
        rate_sum(fees) >= 0,
    decreases fees.len(),
{
    if fees.len() > 0 {
        assert(forall|k: int| 0 <= k < fees.skip(1).len() ==> fees.skip(1)[k] == fees[k + 1]);
        if i == 0 {
            lemma_rate_sum_nonneg(fees.skip(1));
        } else {
            lemma_rate_le_sum(fees.skip(1), i - 1);
        }
    }
}

#[verifier::spinoff_prover]
proof fn lemma_rate_sum_nonneg(fees: Seq<(Rate, String)>)
    ensures
        rate_sum(fees) >= 0,
    decreases fees.len(),
{
    if fees.len() > 0 {
        lemma_rate_sum_nonneg(fees.skip(1));
    }
}

/// A floored cut at a rate of at most one never exceeds the amount.
#[verifier::spinoff_prover]
proof fn lemma_share_le(amount: int, rate: int)
    requires
        amount >= 0,
        0 <= rate <= FRAC_UNIT as int,
    ensures
        0 <= share_amt(amount, rate) <= amount,
{
    let f = FRAC_UNIT as int;
    lemma_mul_nonnegative(amount, rate);
    lemma_div_pos_is_pos(amount * rate, f);
    lemma_mul_inequality(rate, f, amount);
    assert(amount * rate == rate * amount) by {
        lemma_mul_is_commutative(amount, rate);
    }
    assert(amount * f == f * amount) by {
        lemma_mul_is_commutative(amount, f);
    }
    lemma_div_is_ordered(amount * rate, amount * f, f);
    assert((amount * f) / f == amount) by {
        lemma_div_multiples_vanish(amount, f);
        assert(f * amount == amount * f) by {
            lemma_mul_is_commutative(f, amount);
        }
    }
}

/// The combined cut of a fee table whose rates sum to at most one never
/// exceeds the amount.
#[verifier::spinoff_prover]
proof fn lemma_fee_cut_le(amount: int, fees: Seq<(Rate, String)>)
    requires
        amount >= 0,
        rate_sum(fees) <= FRAC_UNIT as int,
    ensures
        0 <= fee_cut(amount, fees) <= amount,
{
    lemma_fee_cut_le_pooled(amount, fees);
    lemma_rate_sum_nonneg(fees);
    lemma_share_le(amount, rate_sum(fees));
}

/// The summed floored cuts never exceed the floored pooled cut.
#[verifier::spinoff_prover]
proof fn lemma_fee_cut_le_pooled(amount: int, fees: Seq<(Rate, String)>)
    requires
        amount >= 0,
    ensures
        0 <= fee_cut(amount, fees) <= share_amt(amount, rate_sum(fees)),
    decreases fees.len(),
{
    let f = FRAC_UNIT as int;
    if fees.len() == 0 {
        assert(amount * 0 == 0) by {
            vstd::arithmetic::mul::lemma_mul_basics(amount);
        }
    } else {
        assert(forall|k: int| 0 <= k < fees.skip(1).len() ==> fees.skip(1)[k] == fees[k + 1]);
        lemma_fee_cut_le_pooled(amount, fees.skip(1));
        let r0 = fees[0].0.num();
        let rest = rate_sum(fees.skip(1));
        lemma_rate_sum_nonneg(fees.skip(1));
        lemma_mul_nonnegative(amount, r0);
        lemma_mul_nonnegative(amount, rest);
        lemma_div_pos_is_pos(amount * r0, f);
        crate::laws::lemma_div_superadd(amount * r0, amount * rest, f);
        assert(amount * r0 + amount * rest == amount * (r0 + rest)) by {
            lemma_mul_is_distributive_add(amount, r0, rest);
        }
    }
}

/// The views of a recipients list.
pub open spec fn pair_views(s: Seq<(String, Vec<Coin>)>) -> Seq<(Seq<char>, Seq<CoinV>)> {
    s.map_values(|p: (String, Vec<Coin>)| (p.0@, views(p.1@)))
}

/// Splits each fee's cut out of the rewards, in place: every recipient
/// gets `floor(amount * rate)` of every coin, all computed on the
/// original amounts; recipients that receive nothing are left out, and
/// coins fully consumed are dropped from the remaining rewards.
#[verifier::spinoff_prover]
pub fn calculate_fee_split(rewards: &mut Vec<Coin>, fees: &Vec<(Rate, String)>) -> (r: Vec<
    (String, Vec<Coin>),
>)
    requires
        rate_sum(fees@) <= FRAC_UNIT as int,
    ensures
        pair_views(r@) == split_recipients(views(old(rewards)@), fees@),
        views(final(rewards)@) == residual(views(old(rewards)@), fees@),
{
    let ghost rs = views(rewards@);
    let mut out: Vec<(String, Vec<Coin>)> = Vec::new();
    let mut fi: usize = 0;
    proof {
        assert(fees@.take(0) =~= Seq::<(Rate, String)>::empty());
        assert(pair_views(out@) =~= split_recipients(rs, fees@.take(0)));
    }
    while fi < fees.len()
        invariant
            fi <= fees@.len(),
            rs == views(rewards@),
            rewards@ == old(rewards)@,
            rate_sum(fees@) <= FRAC_UNIT as int,
            pair_views(out@) == split_recipients(rs, fees@.take(fi as int)),
        decreases fees@.len() - fi,
    {
        let rate = fees[fi].0;
        proof {
            lemma_rate_le_sum(fees@, fi as int);
            lemma_rate_sum_nonneg(fees@);
        }
        let mut entry: Vec<Coin> = Vec::new();
        let mut ci: usize = 0;
        proof {
            assert(rs.take(0) =~= Seq::<CoinV>::empty());
            assert(views(entry@) =~= entry_coins(rs.take(0), rate.num()));
        }
        while ci < rewards.len()
            invariant
                ci <= rewards@.len(),
                rs == views(rewards@),
                rewards@ == old(rewards)@,
                0 <= rate.num() <= FRAC_UNIT as int,
                views(entry@) == entry_coins(rs.take(ci as int), rate.num()),
            decreases rewards@.len() - ci,
        {
            let amount = rewards[ci].amount;
            proof {
                lemma_share_le(amount as int, rate.num());
            }
            let ghost pre = views(entry@);
            let amt = match mul_floor_rate(amount, rate) {
                Some(v) => v,
                None => {
                    proof {
                        assert(false);
                    }
                    0
                },
            };
            if amt > 0 {
                entry.push(Coin { denom: rewards[ci].denom.clone(), amount: amt });
                proof {
                    assert(views(entry@) =~= pre.push(
                        CoinV { denom: rewards@[ci as int].denom@, amount: amt as int },
                    ));
                }
            }
            proof {
                lemma_entry_coins_snoc(rs, ci as int, rate.num());
                assert(views(entry@) =~= entry_coins(rs.take(ci + 1), rate.num()));
            }
            ci = ci + 1;
        }
        proof {
            assert(rs.take(rs.len() as int) =~= rs);
        }
        let ghost out_pre = pair_views(out@);
        if entry.len() > 0 {
            let recipient = fees[fi].1.clone();
            out.push((recipient, entry));
            proof {
                assert(pair_views(out@) =~= out_pre.push(
                    (fees@[fi as int].1@, entry_coins(rs, fees@[fi as int].0.num())),
                ));
            }
        }
        proof {
            lemma_split_snoc(rs, fees@, fi as int);
            assert(pair_views(out@) =~= split_recipients(rs, fees@.take(fi + 1)));
        }
        fi = fi + 1;
    }
    proof {
        assert(fees@.take(fees@.len() as int) =~= fees@);
    }
    // now take the combined cut out of each coin
    let mut kept: Vec<Coin> = Vec::new();
    let mut ci: usize = 0;
    proof {
        assert(rs.take(0) =~= Seq::<CoinV>::empty());
        assert(views(kept@) =~= residual(rs.take(0), fees@));
    }
    while ci < rewards.len()
        invariant
            ci <= rewards@.len(),
            rs == views(rewards@),
            rewards@ == old(rewards)@,
            rate_sum(fees@) <= FRAC_UNIT as int,
            views(kept@) == residual(rs.take(ci as int), fees@),
        decreases rewards@.len() - ci,
    {
        let amount = rewards[ci].amount;
        let mut total_fee: u128 = 0;
        let mut fi2: usize = 0;
        proof {
            assert(fees@.take(0) =~= Seq::<(Rate, String)>::empty());
        }
        while fi2 < fees.len()
            invariant
                fi2 <= fees@.len(),
                rs == views(rewards@),
                rewards@ == old(rewards)@,
                ci < rewards@.len(),
                amount == rewards@[ci as int].amount,
                rate_sum(fees@) <= FRAC_UNIT as int,
                total_fee as int == fee_cut(amount as int, fees@.take(fi2 as int)),
                total_fee <= amount,
            decreases fees@.len() - fi2,
        {
            let rate = fees[fi2].0;
            proof {
                lemma_rate_le_sum(fees@, fi2 as int);
                lemma_rate_sum_nonneg(fees@);
                lemma_share_le(amount as int, rate.num());
                lemma_fee_cut_take_step(amount as int, fees@, fi2 as int);
                lemma_fee_cut_take_le_sum(fees@, fi2 + 1);
                lemma_fee_cut_le(amount as int, fees@.take(fi2 + 1));
            }
            let amt = match mul_floor_rate(amount, rate) {
                Some(v) => v,
                None => {
                    proof {
                        assert(false);
                    }
                    0
                },
            };
            total_fee = total_fee + amt;
            fi2 = fi2 + 1;
        }
        proof {
            assert(fees@.take(fees@.len() as int) =~= fees@);
        }
        let rem = amount - total_fee;
        let ghost kept_pre = views(kept@);
        if rem > 0 {
            kept.push(Coin { denom: rewards[ci].denom.clone(), amount: rem });
            proof {
                assert(views(kept@) =~= kept_pre.push(
                    CoinV { denom: rewards@[ci as int].denom@, amount: rem as int },
                ));
            }
        }
        proof {
            lemma_residual_snoc(rs, fees@, ci as int);
            assert(views(kept@) =~= residual(rs.take(ci + 1), fees@));
        }
        ci = ci + 1;
    }
    proof {
        assert(rs.take(rs.len() as int) =~= rs);
    }
    *rewards = kept;
    out
}

/// Extending the reward prefix by one coin appends at most one coin to a
/// fee entry's payout.
#[verifier::spinoff_prover]
proof fn lemma_entry_coins_snoc(rs: Seq<CoinV>, i: int, rate: int)
    requires
        0 <= i < rs.len(),
    ensures
        entry_coins(rs.take(i + 1), rate) == entry_coins(rs.take(i), rate) + (if share_amt(
            rs[i].amount,
            rate,
        ) > 0 {
            seq![CoinV { denom: rs[i].denom, amount: share_amt(rs[i].amount, rate) }]
        } else {
            Seq::<CoinV>::empty()
        }),
    decreases i,
{
    if i == 0 {
        assert(rs.take(0) =~= Seq::<CoinV>::empty());
        assert(rs.take(1)[0] == rs[0]);
        assert(rs.take(1).skip(1) =~= Seq::<CoinV>::empty());
        assert(entry_coins(rs.take(1), rate) =~= entry_coins(rs.take(0), rate) + (if share_amt(
            rs[0].amount,
            rate,
        ) > 0 {
            seq![CoinV { denom: rs[0].denom, amount: share_amt(rs[0].amount, rate) }]
        } else {
            Seq::<CoinV>::empty()
        }));
    } else {
        assert(rs.take(i + 1)[0] == rs[0]);
        assert(rs.take(i)[0] == rs[0]);
        assert(rs.take(i + 1).skip(1) =~= rs.skip(1).take(i));
        assert(rs.take(i).skip(1) =~= rs.skip(1).take(i - 1));
        assert(rs.skip(1)[i - 1] == rs[i]);
        lemma_entry_coins_snoc(rs.skip(1), i - 1, rate);
        assert(entry_coins(rs.take(i + 1), rate) =~= entry_coins(rs.take(i), rate) + (
        if share_amt(rs[i].amount, rate) > 0 {
            seq![CoinV { denom: rs[i].denom, amount: share_amt(rs[i].amount, rate) }]
        } else {
            Seq::<CoinV>::empty()
        }));
    }
}

/// Extending the fee prefix by one entry appends at most one recipient.
#[verifier::spinoff_prover]
proof fn lemma_split_snoc(rs: Seq<CoinV>, fees: Seq<(Rate, String)>, i: int)
    requires
        0 <= i < fees.len(),
    ensures
        split_recipients(rs, fees.take(i + 1)) == split_recipients(rs, fees.take(i)) + (
        if entry_coins(rs, fees[i].0.num()).len() > 0 {
            seq![(fees[i].1@, entry_coins(rs, fees[i].0.num()))]
        } else {
            Seq::<(Seq<char>, Seq<CoinV>)>::empty()
        }),
    decreases i,
{
    if i == 0 {
        assert(fees.take(0) =~= Seq::<(Rate, String)>::empty());
        assert(fees.take(1)[0] == fees[0]);
        assert(fees.take(1).skip(1) =~= Seq::<(Rate, String)>::empty());
        assert(split_recipients(rs, fees.take(1)) =~= split_recipients(rs, fees.take(0)) + (
        if entry_coins(rs, fees[0].0.num()).len() > 0 {
            seq![(fees[0].1@, entry_coins(rs, fees[0].0.num()))]
        } else {
            Seq::<(Seq<char>, Seq<CoinV>)>::empty()
        }));
    } else {
        assert(fees.take(i + 1)[0] == fees[0]);
        assert(fees.take(i)[0] == fees[0]);
        assert(fees.take(i + 1).skip(1) =~= fees.skip(1).take(i));
        assert(fees.take(i).skip(1) =~= fees.skip(1).take(i - 1));
        assert(fees.skip(1)[i - 1] == fees[i]);
        lemma_split_snoc(rs, fees.skip(1), i - 1);
        assert(split_recipients(rs, fees.take(i + 1)) =~= split_recipients(rs, fees.take(i)) + (
        if entry_coins(rs, fees[i].0.num()).len() > 0 {
            seq![(fees[i].1@, entry_coins(rs, fees[i].0.num()))]
        } else {
            Seq::<(Seq<char>, Seq<CoinV>)>::empty()
        }));
    }
}

/// Extending the reward prefix by one coin appends at most one coin to
/// the residual.
#[verifier::spinoff_prover]
proof fn lemma_residual_snoc(rs: Seq<CoinV>, fees: Seq<(Rate, String)>, i: int)
    requires
        0 <= i < rs.len(),
    ensures
        residual(rs.take(i + 1), fees) == residual(rs.take(i), fees) + (if rs[i].amount - fee_cut(
            rs[i].amount,
            fees,
        ) > 0 {
            seq![CoinV { denom: rs[i].denom, amount: rs[i].amount - fee_cut(rs[i].amount, fees) }]
        } else {
            Seq::<CoinV>::empty()
        }),
    decreases i,
{
    if i == 0 {
        assert(rs.take(0) =~= Seq::<CoinV>::empty());
        assert(rs.take(1)[0] == rs[0]);
        assert(rs.take(1).skip(1) =~= Seq::<CoinV>::empty());
        assert(residual(rs.take(1), fees) =~= residual(rs.take(0), fees) + (if rs[0].amount
            - fee_cut(rs[0].amount, fees) > 0 {
            seq![CoinV { denom: rs[0].denom, amount: rs[0].amount - fee_cut(rs[0].amount, fees) }]
        } else {
            Seq::<CoinV>::empty()
        }));
    } else {
        assert(rs.take(i + 1)[0] == rs[0]);
        assert(rs.take(i)[0] == rs[0]);
        assert(rs.take(i + 1).skip(1) =~= rs.skip(1).take(i));
        assert(rs.take(i).skip(1) =~= rs.skip(1).take(i - 1));
        assert(rs.skip(1)[i - 1] == rs[i]);
        lemma_residual_snoc(rs.skip(1), fees, i - 1);
        assert(residual(rs.take(i + 1), fees) =~= residual(rs.take(i), fees) + (if rs[i].amount
            - fee_cut(rs[i].amount, fees) > 0 {
            seq![CoinV { denom: rs[i].denom, amount: rs[i].amount - fee_cut(rs[i].amount, fees) }]
        } else {
            Seq::<CoinV>::empty()
        }));
    }
}

#[verifier::spinoff_prover]
proof fn lemma_fee_cut_take_step(amount: int, fees: Seq<(Rate, String)>, i: int)
    requires
        0 <= i < fees.len(),
    ensures
        fee_cut(amount, fees.take(i + 1)) == fee_cut(amount, fees.take(i)) + share_amt(
            amount,
            fees[i].0.num(),
        ),
    decreases i,
{
    if i == 0 {
        assert(fees.take(0) =~= Seq::<(Rate, String)>::empty());
        assert(fees.take(1)[0] == fees[0]);
        assert(fees.take(1).skip(1) =~= Seq::<(Rate, String)>::empty());
    } else {
        assert(fees.take(i + 1)[0] == fees[0]);
        assert(fees.take(i)[0] == fees[0]);
        assert(fees.take(i + 1).skip(1) =~= fees.skip(1).take(i));
        assert(fees.take(i).skip(1) =~= fees.skip(1).take(i - 1));
        assert(fees.skip(1)[i - 1] == fees[i]);
        lemma_fee_cut_take_step(amount, fees.skip(1), i - 1);
    }
}

#[verifier::spinoff_prover]
proof fn lemma_fee_cut_take_le_sum(fees: Seq<(Rate, String)>, i: int)
    requires
        0 <= i <= fees.len(),
    ensures
        rate_sum(fees.take(i)) <= rate_sum(fees),
    decreases fees.len(),
{
    if i == 0 {
        assert(fees.take(0) =~= Seq::<(Rate, String)>::empty());
        lemma_rate_sum_nonneg(fees);
    } else {
        assert(fees.take(i)[0] == fees[0]);
        assert(fees.take(i).skip(1) =~= fees.skip(1).take(i - 1));
        lemma_fee_cut_take_le_sum(fees.skip(1), i - 1);
    }
}


/// The combined fee on a single amount, as the operation surface charges
/// it before distributing.
#[verifier::spinoff_prover]
pub fn calculate_total_fee(reward: u128, fees: &Vec<(Rate, String)>) -> (r: u128)
    requires
        rate_sum(fees@) <= FRAC_UNIT as int,
    ensures
        r as int == fee_cut(reward as int, fees@),
{
    let mut total: u128 = 0;
    let mut i: usize = 0;
    proof {
        assert(fees@.take(0) =~= Seq::<(Rate, String)>::empty());
    }
    while i < fees.len()
        invariant
            i <= fees@.len(),
            rate_sum(fees@) <= FRAC_UNIT as int,
            total as int == fee_cut(reward as int, fees@.take(i as int)),
            total <= reward,
        decreases fees@.len() - i,
    {
        let rate = fees[i].0;
        proof {
            lemma_rate_le_sum(fees@, i as int);
            lemma_rate_sum_nonneg(fees@);
            lemma_share_le(reward as int, rate.num());
            lemma_fee_cut_take_step(reward as int, fees@, i as int);
            lemma_fee_cut_take_le_sum(fees@, i + 1);
            lemma_fee_cut_le(reward as int, fees@.take(i + 1));
        }
        let amt = match mul_floor_rate(reward, rate) {
            Some(v) => v,
            None => {
                proof {
                    assert(false);
                }
                0
            },
        };
        total = total + amt;
        i = i + 1;
    }
    proof {
        assert(fees@.take(fees@.len() as int) =~= fees@);
    }
    total
}

/// The normalized weight one fee entry carries when the whole input is
/// divided among the recipients: `floor(rate * 10^18 / total)` atomics.
pub open spec fn dist_weight(rate: int, total: int) -> int {
    (rate * (FRAC_UNIT as int)) / total
}

/// The recipients' payouts when the whole input is divided in proportion
/// to the fee rates.
pub open spec fn dist_recipients(rs: Seq<CoinV>, fees: Seq<(Rate, String)>, total: int) -> Seq<
    (Seq<char>, Seq<CoinV>),
>
    decreases fees.len(),
{
    if fees.len() == 0 {
        Seq::empty()
    } else {
        (if entry_coins(rs, dist_weight(fees[0].0.num(), total)).len() > 0 {
            seq![(fees[0].1@, entry_coins(rs, dist_weight(fees[0].0.num(), total)))]
        } else {
            Seq::empty()
        }) + dist_recipients(rs, fees.skip(1), total)
    }
}

#[verifier::spinoff_prover]
proof fn lemma_dist_snoc(rs: Seq<CoinV>, fees: Seq<(Rate, String)>, total: int, i: int)
    requires
        0 <= i < fees.len(),
    ensures
        dist_recipients(rs, fees.take(i + 1), total) == dist_recipients(rs, fees.take(i), total)
            + (if entry_coins(rs, dist_weight(fees[i].0.num(), total)).len() > 0 {
            seq![(fees[i].1@, entry_coins(rs, dist_weight(fees[i].0.num(), total)))]
        } else {
            Seq::<(Seq<char>, Seq<CoinV>)>::empty()
        }),
    decreases i,
{
    if i == 0 {
        assert(fees.take(0) =~= Seq::<(Rate, String)>::empty());
        assert(fees.take(1)[0] == fees[0]);
        assert(fees.take(1).skip(1) =~= Seq::<(Rate, String)>::empty());
        assert(dist_recipients(rs, fees.take(1), total) =~= dist_recipients(
            rs,
            fees.take(0),
            total,
        ) + (if entry_coins(rs, dist_weight(fees[0].0.num(), total)).len() > 0 {
            seq![(fees[0].1@, entry_coins(rs, dist_weight(fees[0].0.num(), total)))]
        } else {
            Seq::<(Seq<char>, Seq<CoinV>)>::empty()
        }));
    } else {
        assert(fees.take(i + 1)[0] == fees[0]);
        assert(fees.take(i)[0] == fees[0]);
        assert(fees.take(i + 1).skip(1) =~= fees.skip(1).take(i));
        assert(fees.take(i).skip(1) =~= fees.skip(1).take(i - 1));
        assert(fees.skip(1)[i - 1] == fees[i]);
        lemma_dist_snoc(rs, fees.skip(1), total, i - 1);
        assert(dist_recipients(rs, fees.take(i + 1), total) =~= dist_recipients(
            rs,
            fees.take(i),
            total,
        ) + (if entry_coins(rs, dist_weight(fees[i].0.num(), total)).len() > 0 {
            seq![(fees[i].1@, entry_coins(rs, dist_weight(fees[i].0.num(), total)))]
        } else {
            Seq::<(Seq<char>, Seq<CoinV>)>::empty()
        }));
    }
}

/// A normalized weight is at most one whole unit.
#[verifier::spinoff_prover]
proof fn lemma_dist_weight_le_one(rate: int, total: int)
    requires
        0 <= rate <= total,
        total > 0,
    ensures
        0 <= dist_weight(rate, total) <= FRAC_UNIT as int,
{
    let f = FRAC_UNIT as int;
    lemma_mul_nonnegative(rate, f);
    lemma_div_pos_is_pos(rate * f, total);
    lemma_mul_inequality(rate, total, f);
    lemma_div_is_ordered(rate * f, total * f, total);
    assert((total * f) / total == f) by {
        lemma_div_multiples_vanish(f, total);
        assert(total * f == f * total) by {
            lemma_mul_is_commutative(total, f);
        }
    }
}

/// Divides the entire input among the recipients in proportion to their
/// rates: each receives `floor(amount * rate / rate_total)` of every
/// coin; recipients that receive nothing are left out.
#[verifier::spinoff_prover]
pub fn calculate_fee_distribution(rewards: Vec<Coin>, fees: &Vec<(Rate, String)>) -> (r: Vec<
    (String, Vec<Coin>),
>)
    requires
        rate_sum(fees@) <= u128::MAX,
        fees@.len() > 0 && rewards@.len() > 0 ==> rate_sum(fees@) > 0,
    ensures
        pair_views(r@) == dist_recipients(views(rewards@), fees@, rate_sum(fees@)),
{
    let ghost rs = views(rewards@);
    let ghost t = rate_sum(fees@);
    let mut total_weight: u128 = 0;
    let mut i: usize = 0;
    proof {
        assert(fees@.take(0) =~= Seq::<(Rate, String)>::empty());
    }
    while i < fees.len()
        invariant
            i <= fees@.len(),
            rate_sum(fees@) <= u128::MAX,
            total_weight as int == rate_sum(fees@.take(i as int)),
        decreases fees@.len() - i,
    {
        proof {
            lemma_rate_take_step(fees@, i as int);
            lemma_fee_cut_take_le_sum(fees@, i + 1);
            lemma_rate_sum_take_nonneg(fees@, i as int);
        }
        total_weight = total_weight + fees[i].0.atomics;
        i = i + 1;
    }
    proof {
        assert(fees@.take(fees@.len() as int) =~= fees@);
    }
    let mut out: Vec<(String, Vec<Coin>)> = Vec::new();
    let mut fi: usize = 0;
    proof {
        assert(fees@.take(0) =~= Seq::<(Rate, String)>::empty());
        assert(pair_views(out@) =~= dist_recipients(rs, fees@.take(0), t));
    }
    while fi < fees.len()
        invariant
            fi <= fees@.len(),
            rs == views(rewards@),
            t == rate_sum(fees@),
            total_weight as int == t,
            fees@.len() > 0 && rewards@.len() > 0 ==> t > 0,
            pair_views(out@) == dist_recipients(rs, fees@.take(fi as int), t),
        decreases fees@.len() - fi,
    {
        let rate = fees[fi].0;
        proof {
            lemma_rate_le_sum(fees@, fi as int);
            lemma_rate_sum_nonneg(fees@);
        }
        let mut entry: Vec<Coin> = Vec::new();
        let mut ci: usize = 0;
        proof {
            assert(rs.take(0) =~= Seq::<CoinV>::empty());
            assert(views(entry@) =~= entry_coins(rs.take(0), dist_weight(rate.num(), t)));
        }
        while ci < rewards.len()
            invariant
                ci <= rewards@.len(),
                rs == views(rewards@),
                t == rate_sum(fees@),
                total_weight as int == t,
                fi < fees@.len(),
                rate == fees@[fi as int].0,
                0 <= rate.num() <= t,
                rewards@.len() > 0 ==> t > 0,
                views(entry@) == entry_coins(rs.take(ci as int), dist_weight(rate.num(), t)),
            decreases rewards@.len() - ci,
        {
            proof {
                lemma_dist_weight_le_one(rate.num(), t);
            }
            let weight = match crate::rates::div_rate(rate, Rate { atomics: total_weight }) {
                Some(v) => v,
                None => {
                    proof {
                        assert(false);
                    }
                    Rate { atomics: 0 }
                },
            };
            let amount = rewards[ci].amount;
            proof {
                lemma_share_le(amount as int, weight.num());
            }
            let ghost pre = views(entry@);
            let amt = match mul_floor_rate(amount, weight) {
                Some(v) => v,
                None => {
                    proof {
                        assert(false);
                    }
                    0
                },
            };
            if amt > 0 {
                entry.push(Coin { denom: rewards[ci].denom.clone(), amount: amt });
                proof {
                    assert(views(entry@) =~= pre.push(
                        CoinV { denom: rewards@[ci as int].denom@, amount: amt as int },
                    ));
                }
            }
            proof {
                lemma_entry_coins_snoc(rs, ci as int, dist_weight(rate.num(), t));
                assert(views(entry@) =~= entry_coins(rs.take(ci + 1), dist_weight(rate.num(), t)));
            }
            ci = ci + 1;
        }
        proof {
            assert(rs.take(rs.len() as int) =~= rs);
        }
        let ghost out_pre = pair_views(out@);
        if entry.len() > 0 {
            let recipient = fees[fi].1.clone();
            out.push((recipient, entry));
            proof {
                assert(pair_views(out@) =~= out_pre.push(
                    (fees@[fi as int].1@, entry_coins(rs, dist_weight(fees@[fi as int].0.num(), t))),
                ));
            }
        }
        proof {
            lemma_dist_snoc(rs, fees@, t, fi as int);
            assert(pair_views(out@) =~= dist_recipients(rs, fees@.take(fi + 1), t));
        }
        fi = fi + 1;
    }
    proof {
        assert(fees@.take(fees@.len() as int) =~= fees@);
    }
    out
}

#[verifier::spinoff_prover]
proof fn lemma_rate_take_step(fees: Seq<(Rate, String)>, i: int)
    requires
        0 <= i < fees.len(),
    ensures
        rate_sum(fees.take(i + 1)) == rate_sum(fees.take(i)) + fees[i].0.num(),
    decreases i,
{
    if i == 0 {
        assert(fees.take(0) =~= Seq::<(Rate, String)>::empty());
        assert(fees.take(1)[0] == fees[0]);
        assert(fees.take(1).skip(1) =~= Seq::<(Rate, String)>::empty());
    } else {
        assert(fees.take(i + 1)[0] == fees[0]);
        assert(fees.take(i)[0] == fees[0]);
        assert(fees.take(i + 1).skip(1) =~= fees.skip(1).take(i));
        assert(fees.take(i).skip(1) =~= fees.skip(1).take(i - 1));
        assert(fees.skip(1)[i - 1] == fees[i]);
        lemma_rate_take_step(fees.skip(1), i - 1);
    }
}

#[verifier::spinoff_prover]
proof fn lemma_rate_sum_take_nonneg(fees: Seq<(Rate, String)>, i: int)
    requires
        0 <= i <= fees.len(),
    ensures
        rate_sum(fees.take(i)) >= 0,
{
    lemma_rate_sum_nonneg(fees.take(i));
}

/// The total a denom's recipients receive across the whole fee table.
pub open spec fn shares_sum(rs: Seq<CoinV>, fees: Seq<(Rate, String)>, d: Seq<char>) -> int
    decreases fees.len(),
{
    if fees.len() == 0 {
        0
    } else {
        amount_of(entry_coins(rs, fees[0].0.num()), d) + shares_sum(rs, fees.skip(1), d)
    }
}

/// One coin's contributions to all payout lists add up to its combined
/// cut.
#[verifier::spinoff_prover]
proof fn lemma_shares_sum_cons(rs: Seq<CoinV>, fees: Seq<(Rate, String)>, d: Seq<char>)
    requires
        rs.len() > 0,
        forall|i: int| 0 <= i < rs.len() ==> rs[i].amount >= 0,
        rate_sum(fees) <= FRAC_UNIT as int,
    ensures
        shares_sum(rs, fees, d) == (if rs[0].denom == d {
            fee_cut(rs[0].amount, fees)
        } else {
            0
        }) + shares_sum(rs.skip(1), fees, d),
    decreases fees.len(),
{
    if fees.len() == 0 {
    } else {
        assert(forall|k: int| 0 <= k < fees.skip(1).len() ==> fees.skip(1)[k] == fees[k + 1]);
        assert(rate_sum(fees.skip(1)) <= rate_sum(fees)) by {
            lemma_mul_nonnegative(fees[0].0.num(), 1);
        }
        lemma_shares_sum_cons(rs, fees.skip(1), d);
        let r0 = fees[0].0.num();
        // amount_of splits off the head coin's share
        assert(amount_of(entry_coins(rs, r0), d) == (if rs[0].denom == d {
            share_amt(rs[0].amount, r0)
        } else {
            0
        }) + amount_of(entry_coins(rs.skip(1), r0), d)) by {
            crate::coins::lemma_amount_of_concat(
                (if share_amt(rs[0].amount, r0) > 0 {
                    seq![CoinV { denom: rs[0].denom, amount: share_amt(rs[0].amount, r0) }]
                } else {
                    Seq::<CoinV>::empty()
                }),
                entry_coins(rs.skip(1), r0),
                d,
            );
            if share_amt(rs[0].amount, r0) > 0 {
                let single = seq![CoinV { denom: rs[0].denom, amount: share_amt(rs[0].amount, r0) }];
                assert(single.skip(1) =~= Seq::<CoinV>::empty());
                assert(amount_of(Seq::<CoinV>::empty(), d) == 0);
                assert(amount_of(single.skip(1), d) == 0);
                assert(amount_of(single, d) == crate::coins::part_of(single[0], d));
            } else {
                assert(amount_of(Seq::<CoinV>::empty(), d) == 0);
                assert(share_amt(rs[0].amount, r0) >= 0) by {
                    lemma_mul_nonnegative(rs[0].amount, r0);
                    lemma_div_pos_is_pos(rs[0].amount * r0, FRAC_UNIT as int);
                }
            }
        }
    }
}

/// Integer conservation of the fee split: for every denom, what stays in
/// the rewards plus what all recipients receive is exactly what came in.
#[verifier::spinoff_prover]
pub proof fn lemma_fee_split_conservation(
    rs: Seq<CoinV>,
    fees: Seq<(Rate, String)>,
    d: Seq<char>,
)
    requires
        forall|i: int| 0 <= i < rs.len() ==> rs[i].amount >= 0,
        rate_sum(fees) <= FRAC_UNIT as int,
    ensures
        amount_of(residual(rs, fees), d) + shares_sum(rs, fees, d) == amount_of(rs, d),
    decreases rs.len(),
{
    if rs.len() == 0 {
        lemma_shares_sum_empty(rs, fees, d);
    } else {
        assert(forall|k: int| 0 <= k < rs.skip(1).len() ==> rs.skip(1)[k] == rs[k + 1]);
        lemma_fee_split_conservation(rs.skip(1), fees, d);
        lemma_shares_sum_cons(rs, fees, d);
        lemma_fee_cut_le(rs[0].amount, fees);
        let rem = rs[0].amount - fee_cut(rs[0].amount, fees);
        assert(amount_of(residual(rs, fees), d) == (if rem > 0 && rs[0].denom == d {
            rem
        } else {
            0
        }) + amount_of(residual(rs.skip(1), fees), d)) by {
            crate::coins::lemma_amount_of_concat(
                (if rem > 0 {
                    seq![CoinV { denom: rs[0].denom, amount: rem }]
                } else {
                    Seq::<CoinV>::empty()
                }),
                residual(rs.skip(1), fees),
                d,
            );
            if rem > 0 {
                let single = seq![CoinV { denom: rs[0].denom, amount: rem }];
                assert(single.skip(1) =~= Seq::<CoinV>::empty());
                assert(amount_of(Seq::<CoinV>::empty(), d) == 0);
                assert(amount_of(single.skip(1), d) == 0);
                assert(amount_of(single, d) == crate::coins::part_of(single[0], d));
            }
        }
    }
}

#[verifier::spinoff_prover]
proof fn lemma_shares_sum_empty(rs: Seq<CoinV>, fees: Seq<(Rate, String)>, d: Seq<char>)
    requires
        rs.len() == 0,
    ensures
        shares_sum(rs, fees, d) == 0,
    decreases fees.len(),
{
    if fees.len() > 0 {
        lemma_shares_sum_empty(rs, fees.skip(1), d);
        assert(entry_coins(rs, fees[0].0.num()) =~= Seq::<CoinV>::empty());
    }
}


/// Extending a fee prefix adds exactly that entry's rate.
#[verifier::spinoff_prover]
pub proof fn lemma_rate_take_snoc(fees: Seq<(Rate, String)>, i: int)
    requires
        0 <= i < fees.len(),
    ensures
        rate_sum(fees.take(i + 1)) == rate_sum(fees.take(i)) + fees[i].0.num(),
{
    lemma_rate_take_step(fees, i);
}

/// A prefix's rates never sum to more than the whole table's.
#[verifier::spinoff_prover]
pub proof fn lemma_rate_prefix_le(fees: Seq<(Rate, String)>, i: int)
    requires
        0 <= i <= fees.len(),
    ensures
        rate_sum(fees.take(i)) <= rate_sum(fees),
{
    lemma_fee_cut_take_le_sum(fees, i);
}


/// Two fee tables with the same rates and the same recipient names.
pub open spec fn fees_like(a: Seq<(Rate, String)>, b: Seq<(Rate, String)>) -> bool {
    a.len() == b.len() && forall|i: int|
        0 <= i < a.len() ==> (#[trigger] a[i]).0 == b[i].0 && a[i].1@ == b[i].1@
}

/// The combined cut sees only the rates.
#[verifier::spinoff_prover]
pub proof fn lemma_fee_cut_like(amount: int, a: Seq<(Rate, String)>, b: Seq<(Rate, String)>)
    requires
        fees_like(a, b),
    ensures
        fee_cut(amount, a) == fee_cut(amount, b),
        rate_sum(a) == rate_sum(b),
    decreases a.len(),
{
    if a.len() > 0 {
        assert(forall|i: int| 0 <= i < a.skip(1).len() ==> (#[trigger] a.skip(1)[i]) == a[i + 1]);
        assert(forall|i: int| 0 <= i < b.skip(1).len() ==> (#[trigger] b.skip(1)[i]) == b[i + 1]);
        lemma_fee_cut_like(amount, a.skip(1), b.skip(1));
    }
}

/// The residual sees only the rates.
#[verifier::spinoff_prover]
pub proof fn lemma_residual_like(rs: Seq<CoinV>, a: Seq<(Rate, String)>, b: Seq<(Rate, String)>)
    requires
        fees_like(a, b),
    ensures
        residual(rs, a) == residual(rs, b),
    decreases rs.len(),
{
    if rs.len() > 0 {
        lemma_fee_cut_like(rs[0].amount, a, b);
        lemma_residual_like(rs.skip(1), a, b);
        assert(residual(rs, a) =~= residual(rs, b));
    } else {
        assert(residual(rs, a) =~= residual(rs, b));
    }
}

/// The recipients' payouts see only the rates and the recipient names.
#[verifier::spinoff_prover]
pub proof fn lemma_split_like(rs: Seq<CoinV>, a: Seq<(Rate, String)>, b: Seq<(Rate, String)>)
    requires
        fees_like(a, b),
    ensures
        split_recipients(rs, a) == split_recipients(rs, b),
    decreases a.len(),
{
    if a.len() > 0 {
        assert(forall|i: int| 0 <= i < a.skip(1).len() ==> (#[trigger] a.skip(1)[i]) == a[i + 1]);
        assert(forall|i: int| 0 <= i < b.skip(1).len() ==> (#[trigger] b.skip(1)[i]) == b[i + 1]);
        lemma_split_like(rs, a.skip(1), b.skip(1));
        assert(split_recipients(rs, a) =~= split_recipients(rs, b));
    } else {
        assert(split_recipients(rs, a) =~= split_recipients(rs, b));
    }
}

} // verus!
