use vstd::prelude::*;
use vstd::arithmetic::div_mod::{lemma_div_pos_is_pos, lemma_div_is_ordered};
use vstd::arithmetic::mul::{lemma_mul_nonnegative, lemma_mul_inequality};
use crate::coins::{amount_of, views, wf_coins, Coin, CoinV, lemma_amount_of_found,
    lemma_amount_of_absent, lemma_amount_of_update, lemma_amount_of_insert,
    lemma_amount_of_concat};
use crate::denoms::{lex_lt, lemma_lex_lt_connected, lemma_lex_lt_transitive, str_eq, str_lt};
use crate::errors::RewardsError;
use crate::index::{index_bound, index_from_ratio, RewardIndex, FRAC_UNIT, lemma_index_in_range};
use crate::state::{gi_views, w_views, row_views, rows_accrued, rows_count, rows_last,
    sorted_rows, IndexEntry, WeightEntry, RewardsSM, sum_weights, lemma_sum_weights_concat,
    lemma_gi_found, lemma_gi_absent};

verus! {

/// Whether denom `d` occurs among the index entries `s`.
pub open spec fn has_in(s: Seq<IndexEntry>, d: Seq<char>) -> bool {
    exists|i: int| 0 <= i < s.len() && s[i].denom@ == d
}

/// What one distributed coin adds to the index numerator of denom `d`
/// against total stake `total`: `floor(amount * 10^18 / total)` for its
/// own denom, nothing elsewhere.
pub open spec fn delta_of(c: CoinV, d: Seq<char>, total: int) -> int {
    if c.denom == d {
        (c.amount * (FRAC_UNIT as int)) / total
    } else {
        0
    }
}

/// The total increase of denom `d`'s index numerator from distributing
/// the list `rs` against total stake `total`, coin by coin.
pub open spec fn delta_sum(rs: Seq<CoinV>, d: Seq<char>, total: int) -> int
    decreases rs.len(),
{
    if rs.len() == 0 {
        0
    } else {
        delta_of(rs[0], d, total) + delta_sum(rs.skip(1), d, total)
    }
}

#[verifier::spinoff_prover]
pub proof fn lemma_delta_sum_concat(a: Seq<CoinV>, b: Seq<CoinV>, d: Seq<char>, total: int)
    ensures
        delta_sum(a + b, d, total) == delta_sum(a, d, total) + delta_sum(b, d, total),
    decreases a.len(),
{
    if a.len() == 0 {
        assert(a + b =~= b);
    } else {
        assert((a + b)[0] == a[0]);
        assert((a + b).skip(1) =~= a.skip(1) + b);
        lemma_delta_sum_concat(a.skip(1), b, d, total);
    }
}

#[verifier::spinoff_prover]
pub proof fn lemma_delta_sum_push(rs: Seq<CoinV>, c: CoinV, d: Seq<char>, total: int)
    ensures
        delta_sum(rs.push(c), d, total) == delta_sum(rs, d, total) + delta_of(c, d, total),
{
    assert(rs.push(c) =~= rs + seq![c]);
    lemma_delta_sum_concat(rs, seq![c], d, total);
    assert(delta_sum(seq![c], d, total) == delta_of(c, d, total) + delta_sum(
        seq![c].skip(1),
        d,
        total,
    ));
    assert(seq![c].skip(1) =~= Seq::<CoinV>::empty());
}

/// Distribution deltas are never negative.
#[verifier::spinoff_prover]
pub proof fn lemma_delta_sum_nonneg(rs: Seq<CoinV>, d: Seq<char>, total: int)
    requires
        total > 0,
        forall|i: int| 0 <= i < rs.len() ==> rs[i].amount >= 0,
    ensures
        delta_sum(rs, d, total) >= 0,
    decreases rs.len(),
{
    if rs.len() > 0 {
        if rs[0].denom == d {
            lemma_mul_nonnegative(rs[0].amount, FRAC_UNIT as int);
            lemma_div_pos_is_pos(rs[0].amount * (FRAC_UNIT as int), total);
        }
        assert(forall|i: int| 0 <= i < rs.skip(1).len() ==> rs.skip(1)[i] == rs[i + 1]);
        lemma_delta_sum_nonneg(rs.skip(1), d, total);
    }
}

/// A prefix never adds more than the whole list.
#[verifier::spinoff_prover]
pub proof fn lemma_delta_sum_prefix(rs: Seq<CoinV>, i: int, d: Seq<char>, total: int)
    requires
        total > 0,
        0 <= i <= rs.len(),
        forall|k: int| 0 <= k < rs.len() ==> rs[k].amount >= 0,
    ensures
        delta_sum(rs.take(i), d, total) <= delta_sum(rs, d, total),
{
    assert(rs =~= rs.take(i) + rs.skip(i));
    lemma_delta_sum_concat(rs.take(i), rs.skip(i), d, total);
    assert(forall|k: int| 0 <= k < rs.skip(i).len() ==> rs.skip(i)[k] == rs[k + i]);
    lemma_delta_sum_nonneg(rs.skip(i), d, total);
}

/// Raises the index of `denom` by `delta`, creating the entry if the denom
/// is new. Fails only when the raised numerator would not be representable,
/// leaving the entries untouched.
#[verifier::spinoff_prover]
fn gi_bump(gi: &mut Vec<IndexEntry>, denom: &String, delta: RewardIndex) -> (r: bool)
    requires
        crate::coins::sorted_coins(gi_views(old(gi)@)),
    ensures
        r ==> crate::coins::sorted_coins(gi_views(final(gi)@)) && (forall|d: Seq<char>|
            #[trigger] amount_of(gi_views(final(gi)@), d) == amount_of(gi_views(old(gi)@), d) + (
            if d == denom@ {
                delta.num()
            } else {
                0
            })) && (forall|d: Seq<char>|
            #[trigger] has_in(final(gi)@, d) <==> (has_in(old(gi)@, d) || d == denom@)),
        !r ==> final(gi)@ == old(gi)@ && amount_of(gi_views(old(gi)@), denom@) + delta.num()
            >= index_bound(),
{
    let ghost orig = gi_views(gi@);
    let mut j: usize = 0;
    while j < gi.len() && str_lt(gi[j].denom.as_str(), denom.as_str())
        invariant
            j <= gi@.len(),
            gi@ == old(gi)@,
            crate::coins::sorted_coins(orig),
            orig == gi_views(gi@),
            forall|k: int| 0 <= k < j ==> lex_lt(orig[k].denom, denom@),
        decreases gi@.len() - j,
    {
        j = j + 1;
    }
    if j < gi.len() && str_eq(gi[j].denom.as_str(), denom.as_str()) {
        let cur = gi[j].index;
        match cur.checked_add(&delta) {
            None => {
                proof {
                    lemma_gi_found(gi@, j as int);
                }
                false
            },
            Some(next) => {
                let updated = IndexEntry { denom: denom.clone(), index: next };
                proof {
                    assert(updated.denom@ == orig[j as int].denom);
                }
                gi.set(j, updated);
                proof {
                    let now = gi_views(gi@);
                    assert(now =~= orig.update(
                        j as int,
                        CoinV { denom: denom@, amount: next.num() },
                    ));
                    lemma_gi_found(old(gi)@, j as int);
                    assert forall|d: Seq<char>|
                        #[trigger] amount_of(now, d) == amount_of(orig, d) + (if d == denom@ {
                            delta.num()
                        } else {
                            0
                        }) by {
                        lemma_amount_of_update(
                            orig,
                            j as int,
                            CoinV { denom: denom@, amount: next.num() },
                            d,
                        );
                    }
                    assert forall|d: Seq<char>| #[trigger]
                        has_in(gi@, d) <==> (has_in(old(gi)@, d) || d == denom@) by {
                        if has_in(old(gi)@, d) {
                            let i = choose|i: int|
                                0 <= i < old(gi)@.len() && old(gi)@[i].denom@ == d;
                            assert(gi@[i].denom@ == d);
                        }
                        if has_in(gi@, d) {
                            let i = choose|i: int| 0 <= i < gi@.len() && gi@[i].denom@ == d;
                            assert(old(gi)@[i].denom@ == d || d == denom@);
                        }
                        if d == denom@ {
                            assert(gi@[j as int].denom@ == d);
                        }
                    }
                }
                true
            },
        }
    } else {
        proof {
            if j < gi@.len() {
                lemma_lex_lt_connected(orig[j as int].denom, denom@);
            }
            assert forall|k: int| j <= k < orig.len() implies lex_lt(denom@, orig[k].denom) by {
                if k > j {
                    assert(lex_lt(orig[j as int].denom, orig[k].denom));
                    lemma_lex_lt_transitive(denom@, orig[j as int].denom, orig[k].denom);
                }
            }
            assert forall|i: int| 0 <= i < orig.len() implies orig[i].denom != denom@ by {
                lemma_lex_lt_connected(orig[i].denom, denom@);
            }
            lemma_amount_of_absent(orig, denom@);
            lemma_index_in_range(delta);
        }
        let fresh = IndexEntry { denom: denom.clone(), index: delta };
        gi.insert(j, fresh);
        proof {
            let now = gi_views(gi@);
            assert(now =~= orig.insert(j as int, CoinV { denom: denom@, amount: delta.num() }));
            assert forall|a: int, b: int| 0 <= a < b < now.len() implies lex_lt(
                now[a].denom,
                now[b].denom,
            ) by {
                assert(now[a] == if a < j {
                    orig[a]
                } else if a == j {
                    CoinV { denom: denom@, amount: delta.num() }
                } else {
                    orig[a - 1]
                });
                assert(now[b] == if b < j {
                    orig[b]
                } else if b == j {
                    CoinV { denom: denom@, amount: delta.num() }
                } else {
                    orig[b - 1]
                });
            }
            assert forall|d: Seq<char>|
                #[trigger] amount_of(now, d) == amount_of(orig, d) + (if d == denom@ {
                    delta.num()
                } else {
                    0
                }) by {
                lemma_amount_of_insert(orig, j as int, CoinV { denom: denom@, amount: delta.num() }, d);
            }
            assert forall|d: Seq<char>| #[trigger]
                has_in(gi@, d) <==> (has_in(old(gi)@, d) || d == denom@) by {
                if has_in(old(gi)@, d) {
                    let i = choose|i: int| 0 <= i < old(gi)@.len() && old(gi)@[i].denom@ == d;
                    if i < j {
                        assert(gi@[i].denom@ == d);
                    } else {
                        assert(gi@[i + 1].denom@ == d);
                    }
                }
                if has_in(gi@, d) {
                    let i = choose|i: int| 0 <= i < gi@.len() && gi@[i].denom@ == d;
                    if i < j {
                        assert(old(gi)@[i].denom@ == d);
                    } else if i == j {
                        assert(d == denom@);
                    } else {
                        assert(old(gi)@[i - 1].denom@ == d);
                    }
                }
                if d == denom@ {
                    assert(gi@[j as int].denom@ == d);
                }
            }
        }
        true
    }
}

impl RewardsSM {
    /// Raises each distributed coin's denom index by `amount / total`,
    /// in 18-decimal fixed point, coin by coin in list order.
    ///
    /// Fails with `NoStake` when nothing is staked, and with `Overflow`
    /// when some index numerator would leave its 256-bit range; in both
    /// cases the ledger is unchanged.
    #[verifier::spinoff_prover]
    pub fn distribute_rewards(&mut self, rewards: &Vec<Coin>) -> (r: Result<(), RewardsError>)
        requires
            old(self).wf(),
        ensures
            final(self).wf(),
            final(self).total_staked == old(self).total_staked,
            w_views(final(self).user_weights@) == w_views(old(self).user_weights@),
            row_views(final(self).user_rewards@) == row_views(old(self).user_rewards@),
            final(self).user_weights@ == old(self).user_weights@,
            final(self).user_rewards@ == old(self).user_rewards@,
            r is Err ==> *final(self) == *old(self),
            r is Ok <==> (old(self).total_staked > 0 && (forall|d: Seq<char>|
                (#[trigger] old(self).index_num(d)) + delta_sum(
                    views(rewards@),
                    d,
                    old(self).total_staked as int,
                ) < index_bound())),
            match r {
                Ok(()) => {
                    &&& old(self).total_staked > 0
                    &&& forall|d: Seq<char>|
                        #[trigger] final(self).index_num(d) == old(self).index_num(d) + delta_sum(
                            views(rewards@),
                            d,
                            old(self).total_staked as int,
                        )
                    &&& forall|d: Seq<char>|
                        #[trigger] final(self).has_index(d) <==> (old(self).has_index(d)
                            || has_denom(rewards@, d))
                    &&& forall|d: Seq<char>|
                        #[trigger] final(self).index_num(d) >= old(self).index_num(d)
                },
                Err(RewardsError::NoStake) => {
                    &&& old(self).total_staked == 0
                    &&& gi_views(final(self).global_indices@) == gi_views(old(self).global_indices@)
                },
                Err(RewardsError::Overflow) => {
                    &&& old(self).total_staked > 0
                    &&& gi_views(final(self).global_indices@) == gi_views(old(self).global_indices@)
                    &&& exists|d: Seq<char>|
                        old(self).index_num(d) + delta_sum(
                            views(rewards@),
                            d,
                            old(self).total_staked as int,
                        ) >= index_bound()
                },
                Err(_) => false,
            },
    {
        let total = self.total_staked;
        if total == 0 {
            return Err(RewardsError::NoStake);
        }
        let mut gi: Vec<IndexEntry> = Vec::new();
        let mut c: usize = 0;
        while c < self.global_indices.len()
            invariant
                c <= self.global_indices@.len(),
                gi@.len() == c,
                forall|k: int|
                    0 <= k < c ==> (#[trigger] gi@[k]).denom@ == self.global_indices@[k].denom@
                        && gi@[k].index == self.global_indices@[k].index,
                *self == *old(self),
            decreases self.global_indices@.len() - c,
        {
            let e = &self.global_indices[c];
            gi.push(IndexEntry { denom: e.denom.clone(), index: e.index });
            c = c + 1;
        }
        proof {
            assert(gi_views(gi@) =~= gi_views(self.global_indices@));
            assert forall|d: Seq<char>| #[trigger]
                has_in(gi@, d) <==> has_in(self.global_indices@, d) by {
                if has_in(gi@, d) {
                    let k = choose|k: int| 0 <= k < gi@.len() && gi@[k].denom@ == d;
                    assert(self.global_indices@[k].denom@ == d);
                }
                if has_in(self.global_indices@, d) {
                    let k = choose|k: int|
                        0 <= k < self.global_indices@.len() && self.global_indices@[k].denom@ == d;
                    assert(gi@[k].denom@ == d);
                }
            }
            assert(rewards@.take(0) =~= Seq::<Coin>::empty());
        }
        let ghost orig = gi_views(self.global_indices@);
        let mut i: usize = 0;
        proof {
            assert(views(rewards@).take(0) =~= Seq::<CoinV>::empty());
        }
        while i < rewards.len()
            invariant
                i <= rewards@.len(),
                total == old(self).total_staked,
                total > 0,
                *self == *old(self),
                old(self).wf(),
                orig == gi_views(old(self).global_indices@),
                crate::coins::sorted_coins(gi_views(gi@)),
                forall|d: Seq<char>|
                    #[trigger] amount_of(gi_views(gi@), d) == amount_of(orig, d) + delta_sum(
                        views(rewards@).take(i as int),
                        d,
                        total as int,
                    ),
                forall|d: Seq<char>|
                    #[trigger] has_in(gi@, d) <==> (has_in(old(self).global_indices@, d)
                        || has_denom(rewards@.take(i as int), d)),
            decreases rewards@.len() - i,
        {
            let coin = &rewards[i];
            let delta = index_from_ratio(coin.amount, total);
            proof {
                assert(views(rewards@).take(i + 1) =~= views(rewards@).take(i as int).push(
                    views(rewards@)[i as int],
                ));
                assert forall|d: Seq<char>|
                    #[trigger] delta_sum(views(rewards@).take(i + 1), d, total as int) == delta_sum(
                        views(rewards@).take(i as int),
                        d,
                        total as int,
                    ) + delta_of(views(rewards@)[i as int], d, total as int) by {
                    lemma_delta_sum_push(
                        views(rewards@).take(i as int),
                        views(rewards@)[i as int],
                        d,
                        total as int,
                    );
                }
                assert forall|d: Seq<char>| #[trigger]
                    has_denom(rewards@.take(i + 1), d) <==> (has_denom(rewards@.take(i as int), d)
                        || rewards@[i as int].denom@ == d) by {
                    if has_denom(rewards@.take(i as int), d) {
                        let k = choose|k: int|
                            0 <= k < rewards@.take(i as int).len() && (#[trigger] rewards@.take(
                                i as int,
                            )[k]).denom@ == d;
                        assert(rewards@.take(i + 1)[k].denom@ == d);
                    }
                    if rewards@[i as int].denom@ == d {
                        assert(rewards@.take(i + 1)[i as int].denom@ == d);
                    }
                    if has_denom(rewards@.take(i + 1), d) {
                        let k = choose|k: int|
                            0 <= k < rewards@.take(i + 1).len() && (#[trigger] rewards@.take(
                                i + 1,
                            )[k]).denom@ == d;
                        if k < i {
                            assert(rewards@.take(i as int)[k].denom@ == d);
                        }
                    }
                }
            }
            let ok = gi_bump(&mut gi, &coin.denom, delta);
            if !ok {
                proof {
                    let d = coin.denom@;
                    assert(amount_of(orig, d) + delta_sum(views(rewards@).take(i + 1), d, total as int)
                        >= index_bound());
                    assert(forall|k: int|
                        0 <= k < views(rewards@).len() ==> (#[trigger] views(rewards@)[k]).amount
                            >= 0);
                    lemma_delta_sum_prefix(views(rewards@), i + 1, d, total as int);
                    assert(old(self).index_num(d) + delta_sum(views(rewards@), d, total as int)
                        >= index_bound());
                    assert(exists|dd: Seq<char>|
                        old(self).index_num(dd) + delta_sum(views(rewards@), dd, total as int)
                            >= index_bound());
                }
                return Err(RewardsError::Overflow);
            }
            i = i + 1;
        }
        proof {
            assert(views(rewards@).take(rewards@.len() as int) =~= views(rewards@));
            assert(rewards@.take(rewards@.len() as int) =~= rewards@);
        }
        self.global_indices = gi;
        proof {
            assert forall|d: Seq<char>| #[trigger]
                coin_in(views(rewards@), d) <==> has_denom(rewards@, d) by {
                if has_denom(rewards@, d) {
                    let k = choose|k: int| 0 <= k < rewards@.len() && rewards@[k].denom@ == d;
                    assert(views(rewards@)[k].denom == d);
                }
                if coin_in(views(rewards@), d) {
                    let k = choose|k: int|
                        0 <= k < views(rewards@).len() && views(rewards@)[k].denom == d;
                    assert(rewards@[k].denom@ == d);
                }
            }
            assert forall|d: Seq<char>| #[trigger]
                self.has_index(d) <==> has_in(gi@, d) by {
                assert(self.global_indices@ == gi@);
                if self.has_index(d) {
                    let k = choose|k: int|
                        0 <= k < self.global_indices@.len() && self.global_indices@[k].denom@ == d;
                    assert(gi@[k].denom@ == d);
                }
                if has_in(gi@, d) {
                    let k = choose|k: int| 0 <= k < gi@.len() && gi@[k].denom@ == d;
                    assert(self.global_indices@[k].denom@ == d);
                }
            }
            lemma_distribute_preserves_wf(*old(self), *self, views(rewards@), total as int);
            crate::state::lemma_gi_in_range(self.global_indices@);
            assert forall|d: Seq<char>|
                (#[trigger] old(self).index_num(d)) + delta_sum(
                    views(rewards@),
                    d,
                    old(self).total_staked as int,
                ) < index_bound() by {
                assert(self.index_num(d) == old(self).index_num(d) + delta_sum(
                    views(rewards@),
                    d,
                    old(self).total_staked as int,
                ));
                assert(self.index_num(d) < index_bound());
            }
        }
        Ok(())
    }
}

/// Whether some coin in the list carries denom `d`.
pub open spec fn has_denom(rs: Seq<Coin>, d: Seq<char>) -> bool {
    exists|k: int| 0 <= k < rs.len() && rs[k].denom@ == d
}

/// Raising indices pointwise, without touching weights or rows, keeps the
/// ledger invariant: checkpoints still point at existing, not-smaller
/// indices.
#[verifier::spinoff_prover]
proof fn lemma_distribute_preserves_wf(
    pre: RewardsSM,
    post: RewardsSM,
    rs: Seq<CoinV>,
    total: int,
)
    requires
        pre.wf(),
        total > 0,
        post.total_staked == pre.total_staked,
        post.user_weights@ == pre.user_weights@,
        post.user_rewards@ == pre.user_rewards@,
        crate::coins::sorted_coins(gi_views(post.global_indices@)),
        forall|k: int| 0 <= k < rs.len() ==> rs[k].amount >= 0,
        forall|d: Seq<char>|
            #[trigger] post.index_num(d) == pre.index_num(d) + delta_sum(rs, d, total),
        forall|d: Seq<char>| #[trigger] post.has_index(d) <==> (pre.has_index(d) || coin_in(rs, d)),
    ensures
        post.wf(),
        forall|d: Seq<char>| #[trigger] post.index_num(d) >= pre.index_num(d),
{
    assert forall|d: Seq<char>| #[trigger] post.index_num(d) >= pre.index_num(d) by {
        lemma_delta_sum_nonneg(rs, d, total);
    }
    assert forall|i: int| 0 <= i < post.user_rewards@.len() implies post.has_index(
        #[trigger] post.user_rewards@[i].denom@,
    ) && post.user_rewards@[i].last_index.num() <= post.index_num(post.user_rewards@[i].denom@) by {
        assert(pre.has_index(pre.user_rewards@[i].denom@));
        assert(pre.user_rewards@[i].last_index.num() <= pre.index_num(pre.user_rewards@[i].denom@));
        lemma_delta_sum_nonneg(rs, post.user_rewards@[i].denom@, total);
    }
    assert forall|i: int|
        0 <= i < post.user_rewards@.len() implies (#[trigger] post.user_rewards@[i]).accrued > 0
        || post.weight_of(post.user_rewards@[i].user@) > 0 by {
        assert(pre.user_rewards@[i].accrued > 0 || pre.weight_of(pre.user_rewards@[i].user@) > 0);
    }
}

/// Whether some coin view in the list carries denom `d`.
pub open spec fn coin_in(rs: Seq<CoinV>, d: Seq<char>) -> bool {
    exists|k: int| 0 <= k < rs.len() && rs[k].denom == d
}


/// `has_index` on the ledger is membership among its index entries.
#[verifier::spinoff_prover]
pub proof fn lemma_has_index_iff(sm: RewardsSM)
    ensures
        forall|d: Seq<char>| #[trigger] sm.has_index(d) <==> has_in(sm.global_indices@, d),
{
    assert forall|d: Seq<char>| #[trigger]
        sm.has_index(d) <==> has_in(sm.global_indices@, d) by {
        if sm.has_index(d) {
            let k = choose|k: int|
                0 <= k < sm.global_indices@.len() && sm.global_indices@[k].denom@ == d;
            assert(sm.global_indices@[k].denom@ == d);
        }
        if has_in(sm.global_indices@, d) {
            let k = choose|k: int|
                0 <= k < sm.global_indices@.len() && sm.global_indices@[k].denom@ == d;
            assert(sm.global_indices@[k].denom@ == d);
        }
    }
}

/// Replaces (or creates, or prunes) one account's weight entry, keeping
/// the list sorted and free of zero entries.
#[verifier::spinoff_prover]
fn w_store(weights: &mut Vec<WeightEntry>, user: &String, new_w: u128)
    requires
        wf_coins(w_views(old(weights)@)),
    ensures
        wf_coins(w_views(final(weights)@)),
        forall|v: Seq<char>|
            #[trigger] amount_of(w_views(final(weights)@), v) == (if v == user@ {
                new_w as int
            } else {
                amount_of(w_views(old(weights)@), v)
            }),
        sum_weights(w_views(final(weights)@)) == sum_weights(w_views(old(weights)@)) - amount_of(
            w_views(old(weights)@),
            user@,
        ) + new_w,
{
    let ghost orig = w_views(weights@);
    let mut j: usize = 0;
    while j < weights.len() && str_lt(weights[j].user.as_str(), user.as_str())
        invariant
            j <= weights@.len(),
            weights@ == old(weights)@,
            wf_coins(orig),
            orig == w_views(weights@),
            forall|k: int| 0 <= k < j ==> lex_lt(orig[k].denom, user@),
        decreases weights@.len() - j,
    {
        j = j + 1;
    }
    if j < weights.len() && str_eq(weights[j].user.as_str(), user.as_str()) {
        proof {
            crate::state::lemma_w_found(weights@, j as int);
        }
        if new_w == 0 {
            weights.remove(j);
            proof {
                assert(w_views(weights@) =~= orig.remove(j as int));
                lemma_w_seq_remove(orig, j as int, user@);
            }
        } else {
            let e = WeightEntry { user: user.clone(), amount: new_w };
            weights.set(j, e);
            proof {
                lemma_w_seq_update(orig, j as int, CoinV { denom: user@, amount: new_w as int });
                assert(w_views(weights@) =~= orig.update(
                    j as int,
                    CoinV { denom: user@, amount: new_w as int },
                ));
            }
        }
    } else {
        proof {
            if j < weights@.len() {
                lemma_lex_lt_connected(orig[j as int].denom, user@);
            }
            assert forall|k: int| j <= k < orig.len() implies lex_lt(user@, orig[k].denom) by {
                if k > j {
                    assert(lex_lt(orig[j as int].denom, orig[k].denom));
                    lemma_lex_lt_transitive(user@, orig[j as int].denom, orig[k].denom);
                }
            }
            assert forall|k: int| 0 <= k < orig.len() implies orig[k].denom != user@ by {
                lemma_lex_lt_connected(orig[k].denom, user@);
            }
            lemma_amount_of_absent(orig, user@);
        }
        if new_w > 0 {
            let e = WeightEntry { user: user.clone(), amount: new_w };
            weights.insert(j, e);
            proof {
                lemma_w_seq_insert(orig, j as int, CoinV { denom: user@, amount: new_w as int });
                assert(w_views(weights@) =~= orig.insert(
                    j as int,
                    CoinV { denom: user@, amount: new_w as int },
                ));
                let now = w_views(weights@);
                assert forall|a: int, b: int| 0 <= a < b < now.len() implies lex_lt(
                    now[a].denom,
                    now[b].denom,
                ) by {
                    assert(now[a] == if a < j {
                        orig[a]
                    } else if a == j {
                        CoinV { denom: user@, amount: new_w as int }
                    } else {
                        orig[a - 1]
                    });
                    assert(now[b] == if b < j {
                        orig[b]
                    } else if b == j {
                        CoinV { denom: user@, amount: new_w as int }
                    } else {
                        orig[b - 1]
                    });
                }
            }
        }
    }
}

/// Removing the entry at `i` takes exactly its amount out of every sum.
#[verifier::spinoff_prover]
proof fn lemma_w_seq_remove(s: Seq<CoinV>, i: int, u: Seq<char>)
    requires
        crate::coins::sorted_coins(s),
        0 <= i < s.len(),
        s[i].denom == u,
    ensures
        crate::coins::sorted_coins(s.remove(i)),
        forall|v: Seq<char>|
            #[trigger] amount_of(s.remove(i), v) == amount_of(s, v) - (if v == u {
                s[i].amount
            } else {
                0
            }),
        sum_weights(s.remove(i)) == sum_weights(s) - s[i].amount,
        forall|k: int| 0 <= k < s.remove(i).len() ==> (#[trigger] s.remove(i)[k]).amount > 0
            || exists|k2: int| 0 <= k2 < s.len() && s[k2] == s.remove(i)[k],
{
    assert(s.remove(i) =~= s.take(i) + s.skip(i + 1));
    assert(s =~= s.take(i) + seq![s[i]] + s.skip(i + 1));
    crate::coins::lemma_amount_of_found(s, i);
    assert forall|v: Seq<char>|
        #[trigger] amount_of(s.remove(i), v) == amount_of(s, v) - (if v == u {
            s[i].amount
        } else {
            0
        }) by {
        lemma_amount_of_concat(s.take(i), s.skip(i + 1), v);
        lemma_amount_of_concat(s.take(i) + seq![s[i]], s.skip(i + 1), v);
        lemma_amount_of_concat(s.take(i), seq![s[i]], v);
        assert(seq![s[i]].skip(1) =~= Seq::<CoinV>::empty());
        assert(amount_of(seq![s[i]], v) == crate::coins::part_of(s[i], v) + amount_of(
            seq![s[i]].skip(1),
            v,
        ));
    }
    lemma_sum_weights_concat(s.take(i), s.skip(i + 1));
    lemma_sum_weights_concat(s.take(i) + seq![s[i]], s.skip(i + 1));
    lemma_sum_weights_concat(s.take(i), seq![s[i]]);
    assert(seq![s[i]].skip(1) =~= Seq::<CoinV>::empty());
    assert(sum_weights(seq![s[i]]) == s[i].amount + sum_weights(seq![s[i]].skip(1)));
    assert forall|a: int, b: int| 0 <= a < b < s.remove(i).len() implies lex_lt(
        (#[trigger] s.remove(i)[a]).denom,
        (#[trigger] s.remove(i)[b]).denom,
    ) by {
        assert(s.remove(i)[a] == if a < i {
            s[a]
        } else {
            s[a + 1]
        });
        assert(s.remove(i)[b] == if b < i {
            s[b]
        } else {
            s[b + 1]
        });
    }
    assert forall|k: int| 0 <= k < s.remove(i).len() implies (#[trigger] s.remove(i)[k]).amount > 0
        || exists|k2: int| 0 <= k2 < s.len() && s[k2] == s.remove(i)[k] by {
        assert(s.remove(i)[k] == if k < i {
            s[k]
        } else {
            s[k + 1]
        });
    }
}

/// Updating the entry at `i` with the same key swaps its amount in every
/// sum.
#[verifier::spinoff_prover]
proof fn lemma_w_seq_update(s: Seq<CoinV>, i: int, c: CoinV)
    requires
        crate::coins::sorted_coins(s),
        0 <= i < s.len(),
        s[i].denom == c.denom,
    ensures
        crate::coins::sorted_coins(s.update(i, c)),
        forall|v: Seq<char>|
            #[trigger] amount_of(s.update(i, c), v) == amount_of(s, v) - (if v == c.denom {
                s[i].amount
            } else {
                0
            }) + (if v == c.denom {
                c.amount
            } else {
                0
            }),
        sum_weights(s.update(i, c)) == sum_weights(s) - s[i].amount + c.amount,
{
    crate::coins::lemma_amount_of_found(s, i);
    assert forall|v: Seq<char>|
        #[trigger] amount_of(s.update(i, c), v) == amount_of(s, v) - (if v == c.denom {
            s[i].amount
        } else {
            0
        }) + (if v == c.denom {
            c.amount
        } else {
            0
        }) by {
        crate::coins::lemma_amount_of_update(s, i, c, v);
    }
    assert(s.update(i, c) =~= s.take(i) + seq![c] + s.skip(i + 1));
    assert(s =~= s.take(i) + seq![s[i]] + s.skip(i + 1));
    lemma_sum_weights_concat(s.take(i) + seq![c], s.skip(i + 1));
    lemma_sum_weights_concat(s.take(i), seq![c]);
    lemma_sum_weights_concat(s.take(i) + seq![s[i]], s.skip(i + 1));
    lemma_sum_weights_concat(s.take(i), seq![s[i]]);
    assert(seq![c].skip(1) =~= Seq::<CoinV>::empty());
    assert(seq![s[i]].skip(1) =~= Seq::<CoinV>::empty());
    assert(sum_weights(seq![c]) == c.amount + sum_weights(seq![c].skip(1)));
    assert(sum_weights(seq![s[i]]) == s[i].amount + sum_weights(seq![s[i]].skip(1)));
    assert forall|a: int, b: int| 0 <= a < b < s.update(i, c).len() implies lex_lt(
        (#[trigger] s.update(i, c)[a]).denom,
        (#[trigger] s.update(i, c)[b]).denom,
    ) by {
        assert(s.update(i, c)[a].denom == s[a].denom);
        assert(s.update(i, c)[b].denom == s[b].denom);
    }
}

/// Inserting a fresh key adds its amount to every sum.
#[verifier::spinoff_prover]
proof fn lemma_w_seq_insert(s: Seq<CoinV>, i: int, c: CoinV)
    requires
        0 <= i <= s.len(),
    ensures
        forall|v: Seq<char>|
            #[trigger] amount_of(s.insert(i, c), v) == amount_of(s, v) + (if v == c.denom {
                c.amount
            } else {
                0
            }),
        sum_weights(s.insert(i, c)) == sum_weights(s) + c.amount,
{
    assert forall|v: Seq<char>|
        #[trigger] amount_of(s.insert(i, c), v) == amount_of(s, v) + (if v == c.denom {
            c.amount
        } else {
            0
        }) by {
        crate::coins::lemma_amount_of_insert(s, i, c, v);
    }
    assert(s.insert(i, c) =~= s.take(i) + seq![c] + s.skip(i));
    assert(s =~= s.take(i) + s.skip(i));
    lemma_sum_weights_concat(s.take(i) + seq![c], s.skip(i));
    lemma_sum_weights_concat(s.take(i), seq![c]);
    lemma_sum_weights_concat(s.take(i), s.skip(i));
    assert(seq![c].skip(1) =~= Seq::<CoinV>::empty());
    assert(sum_weights(seq![c]) == c.amount + sum_weights(seq![c].skip(1)));
}


/// Re-establishes the ledger invariant after a fold has rebuilt one
/// account's rows and its weight has been set to `new_w`.
#[verifier::spinoff_prover]
proof fn lemma_commit_wf(pre: RewardsSM, post: RewardsSM, u: Seq<char>, new_w: int)
    requires
        pre.wf(),
        post.global_indices@ == pre.global_indices@,
        sorted_rows(row_views(post.user_rewards@)),
        forall|j: int|
            0 <= j < post.user_rewards@.len() ==> has_in(
                pre.global_indices@,
                (#[trigger] post.user_rewards@[j]).denom@,
            ) && post.user_rewards@[j].last_index.num() <= amount_of(
                gi_views(pre.global_indices@),
                post.user_rewards@[j].denom@,
            ),
        forall|j: int|
            0 <= j < post.user_rewards@.len() && (#[trigger] post.user_rewards@[j]).user@ == u ==> (
            post.user_rewards@[j].accrued > 0 || new_w > 0),
        forall|j: int|
            0 <= j < post.user_rewards@.len() && (#[trigger] post.user_rewards@[j]).user@ != u
                ==> exists|k: int|
                0 <= k < pre.user_rewards@.len() && pre.user_rewards@[k]@
                    == post.user_rewards@[j]@,
        wf_coins(w_views(post.user_weights@)),
        forall|v: Seq<char>|
            #[trigger] amount_of(w_views(post.user_weights@), v) == (if v == u {
                new_w
            } else {
                amount_of(w_views(pre.user_weights@), v)
            }),
        post.total_staked as int == sum_weights(w_views(post.user_weights@)),
    ensures
        post.wf(),
{
    assert forall|i: int| 0 <= i < post.user_rewards@.len() implies post.has_index(
        #[trigger] post.user_rewards@[i].denom@,
    ) && post.user_rewards@[i].last_index.num() <= post.index_num(
        post.user_rewards@[i].denom@,
    ) by {
        let d = post.user_rewards@[i].denom@;
        assert(has_in(pre.global_indices@, d));
        let k = choose|k: int|
            0 <= k < pre.global_indices@.len() && pre.global_indices@[k].denom@ == d;
        assert(post.global_indices@[k].denom@ == d);
    }
    assert forall|i: int|
        0 <= i < post.user_rewards@.len() implies (#[trigger] post.user_rewards@[i]).accrued > 0
        || post.weight_of(post.user_rewards@[i].user@) > 0 by {
        let v = post.user_rewards@[i].user@;
        if v == u {
            assert(post.user_rewards@[i].accrued > 0 || new_w > 0);
            assert(post.weight_of(u) == new_w);
        } else {
            let k = choose|k: int|
                0 <= k < pre.user_rewards@.len() && pre.user_rewards@[k]@
                    == post.user_rewards@[i]@;
            assert(pre.user_rewards@[k].accrued > 0 || pre.weight_of(pre.user_rewards@[k].user@)
                > 0);
            assert(pre.user_rewards@[k]@.accrued == post.user_rewards@[i]@.accrued);
            assert(pre.user_rewards@[k]@.user == v);
            assert(post.weight_of(v) == pre.weight_of(v));
        }
    }
}

impl RewardsSM {
    /// This account's stored weight (0 when it has none). Under the
    /// invariant a weight entry exists exactly when this is positive.
    #[verifier::spinoff_prover]
    pub fn get_weight(&self, user: &String) -> (w: u128)
        requires
            self.wf(),
        ensures
            w as int == self.weight_of(user@),
            (w > 0) == self.has_weight(user@),
    {
        let n = self.user_weights.len();
        let mut j: usize = 0;
        while j < n
            invariant
                j <= n,
                n == self.user_weights@.len(),
                self.wf(),
                forall|k: int| 0 <= k < j ==> (#[trigger] self.user_weights@[k]).user@ != user@,
            decreases n - j,
        {
            if str_eq(self.user_weights[j].user.as_str(), user.as_str()) {
                proof {
                    crate::state::lemma_w_found(self.user_weights@, j as int);
                    assert(self.has_weight(user@)) by {
                        assert(self.user_weights@[j as int].user@ == user@);
                    }
                    assert(w_views(self.user_weights@)[j as int].amount > 0);
                }
                return self.user_weights[j].amount;
            }
            j = j + 1;
        }
        proof {
            crate::state::lemma_w_absent(self.user_weights@, user@);
            if self.has_weight(user@) {
                let k = choose|k: int|
                    0 <= k < self.user_weights@.len() && self.user_weights@[k].user@ == user@;
                assert(false);
            }
        }
        0
    }

    /// Folds the account's rewards up to every current index, raises its
    /// weight by `amount`, and returns the folded coin list (zeroed in
    /// storage when `withdraw` is set).
    ///
    /// Fails only with `Overflow` — on the weight, the total, or a folded
    /// amount — leaving the ledger unchanged.
    #[verifier::spinoff_prover]
    pub fn increase_weight(
        &mut self,
        user: &String,
        amount: u128,
        withdraw: bool,
    ) -> (r: Result<Vec<Coin>, RewardsError>)
        requires
            old(self).wf(),
        ensures
            final(self).wf(),
            final(self).global_indices@ == old(self).global_indices@,
            match r {
                Ok(coins) => {
                    &&& views(coins@) == crate::fold::fold_coins(
                        old(self).global_indices@,
                        row_views(old(self).user_rewards@),
                        user@,
                        old(self).weight_of(user@),
                    )
                    &&& wf_coins(views(coins@))
                    &&& post_fold_state(
                        *old(self),
                        *final(self),
                        user@,
                        old(self).weight_of(user@),
                        old(self).weight_of(user@) + amount,
                        withdraw,
                    )
                    &&& final(self).total_staked == old(self).total_staked + amount
                },
                Err(e) => {
                    &&& *final(self) == *old(self)
                    &&& e == RewardsError::Overflow
                    &&& (old(self).weight_of(user@) + amount > u128::MAX || old(self).total_staked
                        + amount > u128::MAX || !crate::fold::fold_fits(
                        old(self).global_indices@,
                        row_views(old(self).user_rewards@),
                        user@,
                        old(self).weight_of(user@),
                    ))
                },
            },
            r is Err <==> (old(self).weight_of(user@) + amount > u128::MAX || old(
                self,
            ).total_staked + amount > u128::MAX || !crate::fold::fold_fits(
                old(self).global_indices@,
                row_views(old(self).user_rewards@),
                user@,
                old(self).weight_of(user@),
            )),
    {
        let cur = self.get_weight(user);
        if amount > u128::MAX - cur {
            proof {
                crate::state::lemma_amount_le_sum(w_views(self.user_weights@), user@);
            }
            return Err(RewardsError::Overflow);
        }
        if amount > u128::MAX - self.total_staked {
            return Err(RewardsError::Overflow);
        }
        proof {
            crate::state::lemma_amount_le_sum(w_views(self.user_weights@), user@);
        }
        let new_w = cur + amount;
        match crate::fold::fold_rows(
            &self.global_indices,
            &self.user_rewards,
            user,
            cur,
            new_w,
            withdraw,
        ) {
            Err(e) => Err(e),
            Ok((nur, coins)) => {
                self.user_rewards = nur;
                w_store(&mut self.user_weights, user, new_w);
                self.total_staked = self.total_staked + amount;
                proof {
                    lemma_commit_wf(*old(self), *self, user@, new_w as int);
                    lemma_has_index_iff(*old(self));
                    lemma_has_index_iff(*self);
                }
                Ok(coins)
            },
        }
    }

    /// Folds, lowers the account's weight by `amount`, and returns the
    /// folded coin list.
    ///
    /// Fails with `WeightNotFound` when the account has no stake, with
    /// `Underflow` when `amount` exceeds it, and with `Overflow` as in
    /// [`Self::increase_weight`]; the ledger is then unchanged.
    #[verifier::spinoff_prover]
    pub fn decrease_weight(
        &mut self,
        user: &String,
        amount: u128,
        withdraw: bool,
    ) -> (r: Result<Vec<Coin>, RewardsError>)
        requires
            old(self).wf(),
        ensures
            final(self).wf(),
            final(self).global_indices@ == old(self).global_indices@,
            match r {
                Ok(coins) => {
                    &&& old(self).weight_of(user@) > 0
                    &&& amount <= old(self).weight_of(user@)
                    &&& crate::fold::fold_fits(
                        old(self).global_indices@,
                        row_views(old(self).user_rewards@),
                        user@,
                        old(self).weight_of(user@),
                    )
                    &&& views(coins@) == crate::fold::fold_coins(
                        old(self).global_indices@,
                        row_views(old(self).user_rewards@),
                        user@,
                        old(self).weight_of(user@),
                    )
                    &&& wf_coins(views(coins@))
                    &&& post_fold_state(
                        *old(self),
                        *final(self),
                        user@,
                        old(self).weight_of(user@),
                        old(self).weight_of(user@) - amount,
                        withdraw,
                    )
                    &&& final(self).total_staked == old(self).total_staked - amount
                },
                Err(RewardsError::WeightNotFound) => {
                    &&& *final(self) == *old(self)
                    &&& old(self).weight_of(user@) == 0
                },
                Err(RewardsError::Underflow) => {
                    &&& *final(self) == *old(self)
                    &&& old(self).weight_of(user@) > 0
                    &&& amount > old(self).weight_of(user@)
                },
                Err(RewardsError::Overflow) => {
                    &&& *final(self) == *old(self)
                    &&& old(self).weight_of(user@) > 0
                    &&& amount <= old(self).weight_of(user@)
                    &&& !crate::fold::fold_fits(
                        old(self).global_indices@,
                        row_views(old(self).user_rewards@),
                        user@,
                        old(self).weight_of(user@),
                    )
                },
                Err(_) => false,
            },
    {
        let cur = self.get_weight(user);
        if cur == 0 {
            return Err(RewardsError::WeightNotFound);
        }
        if amount > cur {
            return Err(RewardsError::Underflow);
        }
        proof {
            crate::state::lemma_amount_le_sum(w_views(self.user_weights@), user@);
        }
        let new_w = cur - amount;
        match crate::fold::fold_rows(
            &self.global_indices,
            &self.user_rewards,
            user,
            cur,
            new_w,
            withdraw,
        ) {
            Err(e) => Err(e),
            Ok((nur, coins)) => {
                self.user_rewards = nur;
                w_store(&mut self.user_weights, user, new_w);
                self.total_staked = self.total_staked - amount;
                proof {
                    lemma_commit_wf(*old(self), *self, user@, new_w as int);
                    lemma_has_index_iff(*old(self));
                    lemma_has_index_iff(*self);
                }
                Ok(coins)
            },
        }
    }

    /// Folds and then sets the account's weight to exactly `weight`,
    /// returning the folded coin list. Fails only with `Overflow`, on the
    /// total or a folded amount, leaving the ledger unchanged.
    #[verifier::spinoff_prover]
    pub fn set_weight(
        &mut self,
        user: &String,
        weight: u128,
        withdraw: bool,
    ) -> (r: Result<Vec<Coin>, RewardsError>)
        requires
            old(self).wf(),
        ensures
            final(self).wf(),
            final(self).global_indices@ == old(self).global_indices@,
            match r {
                Ok(coins) => {
                    &&& crate::fold::fold_fits(
                        old(self).global_indices@,
                        row_views(old(self).user_rewards@),
                        user@,
                        old(self).weight_of(user@),
                    )
                    &&& views(coins@) == crate::fold::fold_coins(
                        old(self).global_indices@,
                        row_views(old(self).user_rewards@),
                        user@,
                        old(self).weight_of(user@),
                    )
                    &&& wf_coins(views(coins@))
                    &&& post_fold_state(
                        *old(self),
                        *final(self),
                        user@,
                        old(self).weight_of(user@),
                        weight as int,
                        withdraw,
                    )
                    &&& final(self).total_staked == old(self).total_staked - old(self).weight_of(
                        user@,
                    ) + weight
                },
                Err(e) => {
                    &&& *final(self) == *old(self)
                    &&& e == RewardsError::Overflow
                    &&& (old(self).total_staked - old(self).weight_of(user@) + weight > u128::MAX
                        || !crate::fold::fold_fits(
                        old(self).global_indices@,
                        row_views(old(self).user_rewards@),
                        user@,
                        old(self).weight_of(user@),
                    ))
                },
            },
    {
        let cur = self.get_weight(user);
        proof {
            crate::state::lemma_amount_le_sum(w_views(self.user_weights@), user@);
        }
        if weight > cur && weight - cur > u128::MAX - self.total_staked {
            return Err(RewardsError::Overflow);
        }
        match crate::fold::fold_rows(
            &self.global_indices,
            &self.user_rewards,
            user,
            cur,
            weight,
            withdraw,
        ) {
            Err(e) => Err(e),
            Ok((nur, coins)) => {
                self.user_rewards = nur;
                w_store(&mut self.user_weights, user, weight);
                self.total_staked = if weight > cur {
                    self.total_staked + (weight - cur)
                } else {
                    self.total_staked - (cur - weight)
                };
                proof {
                    lemma_commit_wf(*old(self), *self, user@, weight as int);
                    lemma_has_index_iff(*old(self));
                    lemma_has_index_iff(*self);
                }
                Ok(coins)
            },
        }
    }

    /// Folds the account's rewards, pays them all out (the stored amounts
    /// are zeroed and empty rows pruned), and leaves the weight as it is.
    /// Fails only with `Overflow` on a folded amount, leaving the ledger
    /// unchanged.
    #[verifier::spinoff_prover]
    pub fn claim_accrued(&mut self, user: &String) -> (r: Result<Vec<Coin>, RewardsError>)
        requires
            old(self).wf(),
        ensures
            final(self).wf(),
            r is Ok <==> crate::fold::fold_fits(
                old(self).global_indices@,
                row_views(old(self).user_rewards@),
                user@,
                old(self).weight_of(user@),
            ),
            final(self).global_indices@ == old(self).global_indices@,
            final(self).user_weights@ == old(self).user_weights@,
            final(self).total_staked == old(self).total_staked,
            match r {
                Ok(coins) => {
                    &&& views(coins@) == crate::fold::fold_coins(
                        old(self).global_indices@,
                        row_views(old(self).user_rewards@),
                        user@,
                        old(self).weight_of(user@),
                    )
                    &&& wf_coins(views(coins@))
                    &&& post_fold_state(
                        *old(self),
                        *final(self),
                        user@,
                        old(self).weight_of(user@),
                        old(self).weight_of(user@),
                        true,
                    )
                },
                Err(e) => {
                    &&& *final(self) == *old(self)
                    &&& e == RewardsError::Overflow
                    &&& !crate::fold::fold_fits(
                        old(self).global_indices@,
                        row_views(old(self).user_rewards@),
                        user@,
                        old(self).weight_of(user@),
                    )
                },
            },
    {
        let cur = self.get_weight(user);
        match crate::fold::fold_rows(
            &self.global_indices,
            &self.user_rewards,
            user,
            cur,
            cur,
            true,
        ) {
            Err(e) => Err(e),
            Ok((nur, coins)) => {
                self.user_rewards = nur;
                proof {
                    lemma_commit_wf(*old(self), *self, user@, cur as int);
                    lemma_has_index_iff(*old(self));
                    lemma_has_index_iff(*self);
                }
                Ok(coins)
            },
        }
    }

    /// The coins the account would receive if it claimed now: a pure read.
    /// Fails only with `Overflow` on a folded amount.
    #[verifier::spinoff_prover]
    pub fn get_accrued(&self, user: &String) -> (r: Result<Vec<Coin>, RewardsError>)
        requires
            self.wf(),
        ensures
            r is Ok <==> crate::fold::fold_fits(
                self.global_indices@,
                row_views(self.user_rewards@),
                user@,
                self.weight_of(user@),
            ),
            match r {
                Ok(coins) => {
                    &&& views(coins@) == crate::fold::fold_coins(
                        self.global_indices@,
                        row_views(self.user_rewards@),
                        user@,
                        self.weight_of(user@),
                    )
                    &&& wf_coins(views(coins@))
                },
                Err(e) => {
                    &&& e == RewardsError::Overflow
                    &&& !crate::fold::fold_fits(
                        self.global_indices@,
                        row_views(self.user_rewards@),
                        user@,
                        self.weight_of(user@),
                    )
                },
            },
    {
        let cur = self.get_weight(user);
        match crate::fold::fold_rows(
            &self.global_indices,
            &self.user_rewards,
            user,
            cur,
            cur,
            true,
        ) {
            Err(e) => Err(e),
            Ok((_nur, coins)) => Ok(coins),
        }
    }
}

/// How a fold for account `u` (with weight moving from `w` to `new_w`,
/// withdrawing or not) relates the new ledger to the old one, pointwise:
/// the indices are untouched, the account's weight becomes `new_w` while
/// every other weight is kept, and the account's rows are caught up,
/// zeroed on withdrawal, and pruned when both amount and weight are zero.
pub open spec fn post_fold_state(
    pre: RewardsSM,
    post: RewardsSM,
    u: Seq<char>,
    w: int,
    new_w: int,
    withdraw: bool,
) -> bool {
    &&& post.global_indices@ == pre.global_indices@
    &&& post.weight_of(u) == new_w
    &&& (forall|v: Seq<char>| v != u ==> #[trigger] post.weight_of(v) == pre.weight_of(v))
    &&& (forall|d: Seq<char>|
        pre.has_index(d) ==> #[trigger] post.has_row(u, d) == crate::fold::keep_row(
            pre.global_indices@,
            row_views(pre.user_rewards@),
            u,
            w,
            new_w,
            withdraw,
            d,
        ))
    &&& (forall|d: Seq<char>|
        pre.has_index(d) ==> #[trigger] post.accrued_of(u, d) == (if crate::fold::keep_row(
            pre.global_indices@,
            row_views(pre.user_rewards@),
            u,
            w,
            new_w,
            withdraw,
            d,
        ) && !withdraw {
            crate::fold::facc(pre.global_indices@, row_views(pre.user_rewards@), u, w, d)
        } else {
            0
        }))
    &&& (forall|d: Seq<char>|
        pre.has_index(d) ==> #[trigger] post.last_of(u, d) == (if crate::fold::keep_row(
            pre.global_indices@,
            row_views(pre.user_rewards@),
            u,
            w,
            new_w,
            withdraw,
            d,
        ) {
            pre.index_num(d)
        } else {
            0
        }))
    &&& (forall|d: Seq<char>|
        !pre.has_index(d) ==> !(#[trigger] post.has_row(u, d)) && post.accrued_of(u, d) == 0
            && post.last_of(u, d) == 0)
    &&& (forall|v: Seq<char>, d: Seq<char>|
        v != u ==> #[trigger] post.has_row(v, d) == pre.has_row(v, d) && post.accrued_of(v, d)
            == pre.accrued_of(v, d) && post.last_of(v, d) == pre.last_of(v, d))
}


/// The share of denom `d` that a weight-`w` account would receive if the
/// coin list `rs` were distributed against total stake `total`, from a
/// fresh checkpoint: coin by coin, `floor(w * floor(amount * 10^18 /
/// total) / 10^18)`.
pub open spec fn share_of(rs: Seq<CoinV>, d: Seq<char>, w: int, total: int) -> int
    decreases rs.len(),
{
    if rs.len() == 0 {
        0
    } else {
        (if rs[0].denom == d {
            (w * ((rs[0].amount * (FRAC_UNIT as int)) / total)) / (FRAC_UNIT as int)
        } else {
            0
        }) + share_of(rs.skip(1), d, w, total)
    }
}

#[verifier::spinoff_prover]
proof fn lemma_share_of_push(rs: Seq<CoinV>, c: CoinV, d: Seq<char>, w: int, total: int)
    ensures
        share_of(rs.push(c), d, w, total) == share_of(rs, d, w, total) + (if c.denom == d {
            (w * ((c.amount * (FRAC_UNIT as int)) / total)) / (FRAC_UNIT as int)
        } else {
            0
        }),
    decreases rs.len(),
{
    if rs.len() == 0 {
        assert(rs.push(c)[0] == c);
        assert(rs.push(c).skip(1) =~= Seq::<CoinV>::empty());
        assert(share_of(Seq::<CoinV>::empty(), d, w, total) == 0);
        assert(rs =~= Seq::<CoinV>::empty());
    } else {
        assert(rs.push(c)[0] == rs[0]);
        assert(rs.push(c).skip(1) =~= rs.skip(1).push(c));
        lemma_share_of_push(rs.skip(1), c, d, w, total);
    }
}

#[verifier::spinoff_prover]
pub proof fn lemma_share_of_nonneg(rs: Seq<CoinV>, d: Seq<char>, w: int, total: int)
    requires
        w >= 0,
        total > 0,
        forall|i: int| 0 <= i < rs.len() ==> rs[i].amount >= 0,
    ensures
        share_of(rs, d, w, total) >= 0,
    decreases rs.len(),
{
    if rs.len() > 0 {
        if rs[0].denom == d {
            lemma_mul_nonnegative(rs[0].amount, FRAC_UNIT as int);
            lemma_div_pos_is_pos(rs[0].amount * (FRAC_UNIT as int), total);
            lemma_mul_nonnegative(w, (rs[0].amount * (FRAC_UNIT as int)) / total);
            lemma_div_pos_is_pos(w * ((rs[0].amount * (FRAC_UNIT as int)) / total), FRAC_UNIT as int);
        }
        assert(forall|i: int| 0 <= i < rs.skip(1).len() ==> rs.skip(1)[i] == rs[i + 1]);
        lemma_share_of_nonneg(rs.skip(1), d, w, total);
    }
}

impl RewardsSM {
    /// What each listed account would receive of the given coins if they
    /// were distributed right now, each share computed from a fresh
    /// checkpoint; a pure preview that changes nothing and ignores
    /// anything already accrued. Each returned list is normalized.
    ///
    /// Fails only with `Overflow` when some share does not fit in a
    /// `u128`.
    #[verifier::spinoff_prover]
    pub fn calculate_users_rewards(
        &self,
        users: &Vec<String>,
        rewards: &Vec<Coin>,
    ) -> (r: Result<Vec<(String, Vec<Coin>)>, RewardsError>)
        requires
            self.wf(),
            self.total_staked > 0 || rewards@.len() == 0,
        ensures
            match r {
                Ok(out) => {
                    &&& out@.len() == users@.len()
                    &&& forall|i: int|
                        0 <= i < out@.len() ==> (#[trigger] out@[i]).0@ == users@[i]@
                    &&& forall|i: int|
                        0 <= i < out@.len() ==> wf_coins(views((#[trigger] out@[i]).1@))
                    &&& forall|i: int, d: Seq<char>|
                        0 <= i < out@.len() ==> #[trigger] amount_of(views(out@[i].1@), d)
                            == share_of(
                            views(rewards@),
                            d,
                            self.weight_of(users@[i]@),
                            self.total_staked as int,
                        )
                },
                Err(e) => {
                    &&& e == RewardsError::Overflow
                    &&& exists|i: int, d: Seq<char>|
                        0 <= i < users@.len() && share_of(
                            views(rewards@),
                            d,
                            self.weight_of(users@[i]@),
                            self.total_staked as int,
                        ) > u128::MAX
                },
            },
    {
        let total = self.total_staked;
        let ghost t = total as int;
        let mut out: Vec<(String, Vec<Coin>)> = Vec::new();
        let mut i: usize = 0;
        while i < users.len()
            invariant
                i <= users@.len(),
                self.wf(),
                total == self.total_staked,
                t == total as int,
                total > 0 || rewards@.len() == 0,
                out@.len() == i,
                forall|k: int| 0 <= k < i ==> (#[trigger] out@[k]).0@ == users@[k]@,
                forall|k: int| 0 <= k < i ==> wf_coins(views((#[trigger] out@[k]).1@)),
                forall|k: int, d: Seq<char>|
                    0 <= k < i ==> #[trigger] amount_of(views(out@[k].1@), d) == share_of(
                        views(rewards@),
                        d,
                        self.weight_of(users@[k]@),
                        t,
                    ),
            decreases users@.len() - i,
        {
            let user = &users[i];
            let w = self.get_weight(user);
            let mut raw: Vec<Coin> = Vec::new();
            let mut k: usize = 0;
            proof {
                assert(views(rewards@).take(0) =~= Seq::<CoinV>::empty());
                assert(views(raw@) =~= Seq::<CoinV>::empty());
                assert forall|d: Seq<char>| true implies #[trigger] amount_of(views(raw@), d)
                    == share_of(views(rewards@).take(0), d, w as int, t) by {
                    crate::coins::lemma_amount_of_absent(views(raw@), d);
                }
            }
            while k < rewards.len()
                invariant
                    k <= rewards@.len(),
                    total == self.total_staked,
                    w as int == self.weight_of(users@[i as int]@),
                    i < users@.len(),
                    user@ == users@[i as int]@,
                    t == total as int,
                    total > 0 || rewards@.len() == 0,
                    forall|d: Seq<char>|
                        #[trigger] amount_of(views(raw@), d) == share_of(
                            views(rewards@).take(k as int),
                            d,
                            w as int,
                            t,
                        ),
                    forall|x: int| 0 <= x < views(raw@).len() ==> (#[trigger] views(raw@)[x]).amount
                        >= 0,
                decreases rewards@.len() - k,
            {
                let c = &rewards[k];
                let e = index_from_ratio(c.amount, total);
                let ghost pre = views(raw@);
                let val = match crate::index::mul_floor_index(w, &e) {
                    Some(v) => v,
                    None => {
                        proof {
                            let d = c.denom@;
                            lemma_share_overflow(views(rewards@), k as int, d, w as int, t);
                            assert(share_of(views(rewards@), d, w as int, t) > u128::MAX);
                            assert(share_of(
                                views(rewards@),
                                d,
                                self.weight_of(users@[i as int]@),
                                self.total_staked as int,
                            ) > u128::MAX);
                            assert(exists|ii: int, dd: Seq<char>|
                                0 <= ii < users@.len() && #[trigger] share_of(
                                    views(rewards@),
                                    dd,
                                    self.weight_of(users@[ii]@),
                                    self.total_staked as int,
                                ) > u128::MAX) by {
                                assert(0 <= (i as int) && (i as int) < users@.len() && share_of(
                                    views(rewards@),
                                    d,
                                    self.weight_of(users@[i as int]@),
                                    self.total_staked as int,
                                ) > u128::MAX);
                            }
                        }
                        return Err(RewardsError::Overflow);
                    },
                };
                raw.push(Coin { denom: c.denom.clone(), amount: val });
                proof {
                    assert(views(raw@) =~= pre.push(CoinV { denom: c.denom@, amount: val as int }));
                    assert(views(rewards@).take(k + 1) =~= views(rewards@).take(k as int).push(
                        views(rewards@)[k as int],
                    ));
                    assert forall|d: Seq<char>| true implies #[trigger] amount_of(views(raw@), d)
                        == share_of(views(rewards@).take(k + 1), d, w as int, t) by {
                        crate::coins::lemma_amount_of_push(
                            pre,
                            CoinV { denom: c.denom@, amount: val as int },
                            d,
                        );
                        lemma_share_of_push(
                            views(rewards@).take(k as int),
                            views(rewards@)[k as int],
                            d,
                            w as int,
                            t,
                        );
                    }
                }
                k = k + 1;
            }
            proof {
                assert(views(rewards@).take(rewards@.len() as int) =~= views(rewards@));
            }
            match crate::coins::normalize_coins(&raw) {
                Some(n) => {
                    out.push((user.clone(), n));
                },
                None => {
                    proof {
                        let d = choose|d: Seq<char>|
                            amount_of(views(raw@), d) > u128::MAX;
                        assert(share_of(views(rewards@), d, w as int, t) > u128::MAX);
                        assert(share_of(
                            views(rewards@),
                            d,
                            self.weight_of(users@[i as int]@),
                            self.total_staked as int,
                        ) > u128::MAX);
                        assert(exists|ii: int, dd: Seq<char>|
                            0 <= ii < users@.len() && #[trigger] share_of(
                                views(rewards@),
                                dd,
                                self.weight_of(users@[ii]@),
                                self.total_staked as int,
                            ) > u128::MAX) by {
                            assert(0 <= (i as int) && (i as int) < users@.len() && share_of(
                                views(rewards@),
                                d,
                                self.weight_of(users@[i as int]@),
                                self.total_staked as int,
                            ) > u128::MAX);
                        }
                    }
                    return Err(RewardsError::Overflow);
                },
            }
            i = i + 1;
        }
        Ok(out)
    }
}

/// If one coin's share alone exceeds the bound, so does the denom's
/// total share.
#[verifier::spinoff_prover]
proof fn lemma_share_overflow(rs: Seq<CoinV>, k: int, d: Seq<char>, w: int, total: int)
    requires
        0 <= k < rs.len(),
        rs[k].denom == d,
        w >= 0,
        total > 0,
        forall|i: int| 0 <= i < rs.len() ==> rs[i].amount >= 0,
        (w * ((rs[k].amount * (FRAC_UNIT as int)) / total)) / (FRAC_UNIT as int) > u128::MAX,
    ensures
        share_of(rs, d, w, total) > u128::MAX,
{
    assert(rs =~= rs.take(k) + seq![rs[k]] + rs.skip(k + 1));
    lemma_share_concat(rs.take(k) + seq![rs[k]], rs.skip(k + 1), d, w, total);
    lemma_share_concat(rs.take(k), seq![rs[k]], d, w, total);
    assert(seq![rs[k]].skip(1) =~= Seq::<CoinV>::empty());
    assert(share_of(seq![rs[k]], d, w, total) == (w * ((rs[k].amount * (FRAC_UNIT as int))
        / total)) / (FRAC_UNIT as int) + share_of(seq![rs[k]].skip(1), d, w, total));
    assert(forall|i: int| 0 <= i < rs.take(k).len() ==> (#[trigger] rs.take(k)[i]).amount >= 0);
    assert(forall|i: int| 0 <= i < rs.skip(k + 1).len() ==> (#[trigger] rs.skip(k + 1)[i]).amount
        >= 0);
    lemma_share_of_nonneg(rs.take(k), d, w, total);
    lemma_share_of_nonneg(rs.skip(k + 1), d, w, total);
}

#[verifier::spinoff_prover]
proof fn lemma_share_concat(a: Seq<CoinV>, b: Seq<CoinV>, d: Seq<char>, w: int, total: int)
    ensures
        share_of(a + b, d, w, total) == share_of(a, d, w, total) + share_of(b, d, w, total),
    decreases a.len(),
{
    if a.len() == 0 {
        assert(a + b =~= b);
    } else {
        assert((a + b)[0] == a[0]);
        assert((a + b).skip(1) =~= a.skip(1) + b);
        lemma_share_concat(a.skip(1), b, d, w, total);
    }
}


/// Updating a row in place changes exactly its key's sums.
#[verifier::spinoff_prover]
pub proof fn lemma_rows_update(s: Seq<crate::state::RowV>, i: int, r: crate::state::RowV, u: Seq<char>, d: Seq<char>)
    requires
        0 <= i < s.len(),
    ensures
        rows_accrued(s.update(i, r), u, d) == rows_accrued(s, u, d) - (if crate::state::row_match(
            s[i],
            u,
            d,
        ) {
            s[i].accrued
        } else {
            0
        }) + (if crate::state::row_match(r, u, d) {
            r.accrued
        } else {
            0
        }),
        rows_last(s.update(i, r), u, d) == rows_last(s, u, d) - (if crate::state::row_match(
            s[i],
            u,
            d,
        ) {
            s[i].last
        } else {
            0
        }) + (if crate::state::row_match(r, u, d) {
            r.last
        } else {
            0
        }),
        rows_count(s.update(i, r), u, d) == rows_count(s, u, d) - (if crate::state::row_match(
            s[i],
            u,
            d,
        ) {
            1int
        } else {
            0
        }) + (if crate::state::row_match(r, u, d) {
            1int
        } else {
            0
        }),
{
    assert(s.update(i, r) =~= s.take(i) + seq![r] + s.skip(i + 1));
    assert(s =~= s.take(i) + seq![s[i]] + s.skip(i + 1));
    crate::state::lemma_rows_concat(s.take(i) + seq![r], s.skip(i + 1), u, d);
    crate::state::lemma_rows_concat(s.take(i), seq![r], u, d);
    crate::state::lemma_rows_concat(s.take(i) + seq![s[i]], s.skip(i + 1), u, d);
    crate::state::lemma_rows_concat(s.take(i), seq![s[i]], u, d);
    assert(seq![r].skip(1) =~= Seq::<crate::state::RowV>::empty());
    assert(seq![s[i]].skip(1) =~= Seq::<crate::state::RowV>::empty());
    assert(rows_accrued(seq![r], u, d) == (if crate::state::row_match(r, u, d) {
        r.accrued
    } else {
        0
    }) + rows_accrued(seq![r].skip(1), u, d));
    assert(rows_accrued(seq![s[i]], u, d) == (if crate::state::row_match(s[i], u, d) {
        s[i].accrued
    } else {
        0
    }) + rows_accrued(seq![s[i]].skip(1), u, d));
    assert(rows_last(seq![r], u, d) == (if crate::state::row_match(r, u, d) {
        r.last
    } else {
        0
    }) + rows_last(seq![r].skip(1), u, d));
    assert(rows_last(seq![s[i]], u, d) == (if crate::state::row_match(s[i], u, d) {
        s[i].last
    } else {
        0
    }) + rows_last(seq![s[i]].skip(1), u, d));
    assert(rows_count(seq![r], u, d) == (if crate::state::row_match(r, u, d) {
        1int
    } else {
        0
    }) + rows_count(seq![r].skip(1), u, d));
    assert(rows_count(seq![s[i]], u, d) == (if crate::state::row_match(s[i], u, d) {
        1int
    } else {
        0
    }) + rows_count(seq![s[i]].skip(1), u, d));
}

/// Inserting a row adds exactly its key's values to the sums.
#[verifier::spinoff_prover]
pub proof fn lemma_rows_insert(s: Seq<crate::state::RowV>, i: int, r: crate::state::RowV, u: Seq<char>, d: Seq<char>)
    requires
        0 <= i <= s.len(),
    ensures
        rows_accrued(s.insert(i, r), u, d) == rows_accrued(s, u, d) + (
        if crate::state::row_match(r, u, d) {
            r.accrued
        } else {
            0
        }),
        rows_last(s.insert(i, r), u, d) == rows_last(s, u, d) + (if crate::state::row_match(
            r,
            u,
            d,
        ) {
            r.last
        } else {
            0
        }),
        rows_count(s.insert(i, r), u, d) == rows_count(s, u, d) + (if crate::state::row_match(
            r,
            u,
            d,
        ) {
            1int
        } else {
            0
        }),
{
    assert(s.insert(i, r) =~= s.take(i) + seq![r] + s.skip(i));
    assert(s =~= s.take(i) + s.skip(i));
    crate::state::lemma_rows_concat(s.take(i) + seq![r], s.skip(i), u, d);
    crate::state::lemma_rows_concat(s.take(i), seq![r], u, d);
    crate::state::lemma_rows_concat(s.take(i), s.skip(i), u, d);
    assert(seq![r].skip(1) =~= Seq::<crate::state::RowV>::empty());
    assert(rows_accrued(seq![r], u, d) == (if crate::state::row_match(r, u, d) {
        r.accrued
    } else {
        0
    }) + rows_accrued(seq![r].skip(1), u, d));
    assert(rows_last(seq![r], u, d) == (if crate::state::row_match(r, u, d) {
        r.last
    } else {
        0
    }) + rows_last(seq![r].skip(1), u, d));
    assert(rows_count(seq![r], u, d) == (if crate::state::row_match(r, u, d) {
        1int
    } else {
        0
    }) + rows_count(seq![r].skip(1), u, d));
}


/// The checkpoint key order is connected: two keys are ordered or equal.
proof fn lemma_row_key_connected(a: crate::state::RowV, b: crate::state::RowV)
    ensures
        crate::state::row_key_lt(a, b) || crate::state::row_key_lt(b, a) || (a.user == b.user
            && a.denom == b.denom),
        crate::state::row_key_lt(a, b) ==> !crate::state::row_key_lt(b, a),
{
    lemma_lex_lt_connected(a.user, b.user);
    lemma_lex_lt_connected(a.denom, b.denom);
}

/// The checkpoint key order is transitive.
proof fn lemma_row_key_transitive(a: crate::state::RowV, b: crate::state::RowV, c: crate::state::RowV)
    requires
        crate::state::row_key_lt(a, b),
        crate::state::row_key_lt(b, c),
    ensures
        crate::state::row_key_lt(a, c),
{
    if lex_lt(a.user, b.user) && lex_lt(b.user, c.user) {
        lemma_lex_lt_transitive(a.user, b.user, c.user);
    } else if a.user == b.user && b.user == c.user {
        lemma_lex_lt_transitive(a.denom, b.denom, c.denom);
    }
}

/// Every row after a bump is either the bumped key's (carrying
/// something, with a valid checkpoint) or an original row whose stored
/// rewards did not shrink.
pub open spec fn bumped_rows(
    pre: Seq<crate::state::RewardInfo>,
    post: Seq<crate::state::RewardInfo>,
    u: Seq<char>,
    d: Seq<char>,
) -> bool {
    forall|j: int|
        0 <= j < post.len() ==> ((#[trigger] post[j]).user@ == u && post[j].denom@ == d
            && post[j].accrued > 0 && post[j].last_index.num() == 0) || exists|k: int|
            0 <= k < pre.len() && (#[trigger] pre[k]).user@ == post[j].user@ && pre[k].denom@
                == post[j].denom@ && pre[k].last_index == post[j].last_index && post[j].accrued
                >= pre[k].accrued
}

/// Adds `amount` to the `(user, denom)` checkpoint row's stored rewards,
/// creating the row (with a zero checkpoint) when absent; the list stays
/// sorted, no other key's sums move, and checkpoints are untouched.
/// Fails exactly when the row's total would leave its range, changing
/// nothing.
#[verifier::rlimit(100)]
#[verifier::spinoff_prover]
fn row_bump(
    rows: &mut Vec<crate::state::RewardInfo>,
    user: &String,
    denom: &String,
    amount: u128,
) -> (r: bool)
    requires
        sorted_rows(row_views(old(rows)@)),
        amount > 0,
    ensures
        r ==> sorted_rows(row_views(final(rows)@)) && (forall|u2: Seq<char>, d2: Seq<char>|
            #[trigger] rows_accrued(row_views(final(rows)@), u2, d2) == rows_accrued(
                row_views(old(rows)@),
                u2,
                d2,
            ) + (if u2 == user@ && d2 == denom@ {
                amount as int
            } else {
                0
            })) && (forall|u2: Seq<char>, d2: Seq<char>|
            #[trigger] rows_last(row_views(final(rows)@), u2, d2) == rows_last(
                row_views(old(rows)@),
                u2,
                d2,
            )) && (forall|u2: Seq<char>, d2: Seq<char>|
            #[trigger] rows_count(row_views(final(rows)@), u2, d2) == rows_count(
                row_views(old(rows)@),
                u2,
                d2,
            ) + (if u2 == user@ && d2 == denom@ && rows_count(row_views(old(rows)@), u2, d2) == 0 {
                1int
            } else {
                0
            })) && bumped_rows(old(rows)@, final(rows)@, user@, denom@),
        !r ==> final(rows)@ == old(rows)@ && rows_accrued(row_views(old(rows)@), user@, denom@)
            + amount > u128::MAX,
{
    let ghost rows0 = row_views(rows@);
    let ghost key = crate::state::RowV { user: user@, denom: denom@, accrued: 0, last: 0 };
    let n = rows.len();
    let mut j: usize = 0;
    while j < n && (str_lt(rows[j].user.as_str(), user.as_str()) || (str_eq(
        rows[j].user.as_str(),
        user.as_str(),
    ) && str_lt(rows[j].denom.as_str(), denom.as_str())))
        invariant
            j <= n,
            n == rows@.len(),
            rows@ == old(rows)@,
            rows0 == row_views(rows@),
            sorted_rows(rows0),
            key == (crate::state::RowV { user: user@, denom: denom@, accrued: 0, last: 0 }),
            forall|k: int| 0 <= k < j ==> crate::state::row_key_lt(#[trigger] rows0[k], key),
        decreases n - j,
    {
        j = j + 1;
    }
    if j < n && str_eq(rows[j].user.as_str(), user.as_str()) && str_eq(
        rows[j].denom.as_str(),
        denom.as_str(),
    ) {
        // the row exists: grow its stored rewards
        proof {
            crate::state::lemma_rows_found(rows0, j as int);
        }
        let cur = rows[j].accrued;
        if amount > u128::MAX - cur {
            return false;
        }
        let kept_last = rows[j].last_index;
        let updated = crate::state::RewardInfo {
            user: user.clone(),
            denom: denom.clone(),
            accrued: cur + amount,
            last_index: kept_last,
        };
        proof {
            assert(updated@.user == rows0[j as int].user);
            assert(updated@.denom == rows0[j as int].denom);
            assert(updated@.last == rows0[j as int].last);
        }
        rows.set(j, updated);
        proof {
            assert(row_views(rows@) =~= rows0.update(j as int, updated@));
            assert forall|u2: Seq<char>, d2: Seq<char>| true implies #[trigger] rows_accrued(
                row_views(rows@),
                u2,
                d2,
            ) == rows_accrued(rows0, u2, d2) + (if u2 == user@ && d2 == denom@ {
                amount as int
            } else {
                0
            }) by {
                lemma_rows_update(rows0, j as int, updated@, u2, d2);
            }
            assert forall|u2: Seq<char>, d2: Seq<char>| true implies #[trigger] rows_last(
                row_views(rows@),
                u2,
                d2,
            ) == rows_last(rows0, u2, d2) by {
                lemma_rows_update(rows0, j as int, updated@, u2, d2);
            }
            assert forall|u2: Seq<char>, d2: Seq<char>| true implies #[trigger] rows_count(
                row_views(rows@),
                u2,
                d2,
            ) == rows_count(rows0, u2, d2) + (if u2 == user@ && d2 == denom@ && rows_count(
                rows0,
                u2,
                d2,
            ) == 0 {
                1int
            } else {
                0
            }) by {
                lemma_rows_update(rows0, j as int, updated@, u2, d2);
            }
            assert forall|a: int, b: int|
                0 <= a < b < row_views(rows@).len() implies crate::state::row_key_lt(
                row_views(rows@)[a],
                row_views(rows@)[b],
            ) by {
                let now_v = row_views(rows@);
                assert(now_v[a] == if a == j {
                    updated@
                } else {
                    rows0[a]
                });
                assert(now_v[b] == if b == j {
                    updated@
                } else {
                    rows0[b]
                });
                assert(crate::state::row_key_lt(rows0[a], rows0[b]));
                assert(now_v[a].user == rows0[a].user && now_v[a].denom == rows0[a].denom);
                assert(now_v[b].user == rows0[b].user && now_v[b].denom == rows0[b].denom);
            }
            assert(bumped_rows(old(rows)@, rows@, user@, denom@)) by {
                assert forall|jj: int| 0 <= jj < rows@.len() implies exists|k: int|
                    0 <= k < old(rows)@.len() && (#[trigger] old(rows)@[k]).user@ == (
                    #[trigger] rows@[jj]).user@ && old(rows)@[k].denom@ == rows@[jj].denom@
                        && old(rows)@[k].last_index == rows@[jj].last_index && rows@[jj].accrued
                        >= old(rows)@[k].accrued by {
                    assert(old(rows)@[jj].user@ == rows@[jj].user@ && old(rows)@[jj].denom@
                        == rows@[jj].denom@ && old(rows)@[jj].last_index == rows@[jj].last_index
                        && rows@[jj].accrued >= old(rows)@[jj].accrued);
                }
            }
        }
        true
    } else {
        proof {
            if j < rows@.len() {
                lemma_row_key_connected(rows0[j as int], key);
                assert(crate::state::row_key_lt(key, rows0[j as int]));
            }
            assert forall|k: int| j <= k < rows0.len() implies crate::state::row_key_lt(
                key,
                #[trigger] rows0[k],
            ) by {
                if k > j {
                    assert(crate::state::row_key_lt(rows0[j as int], rows0[k]));
                    lemma_row_key_transitive(key, rows0[j as int], rows0[k]);
                }
            }
            assert forall|k: int| 0 <= k < rows0.len() implies !crate::state::row_match(
                #[trigger] rows0[k],
                user@,
                denom@,
            ) by {
                if k < j {
                    lemma_row_key_connected(rows0[k], key);
                } else {
                    lemma_row_key_connected(key, rows0[k]);
                }
            }
            crate::state::lemma_rows_absent(rows0, user@, denom@);
        }
        let fresh = crate::state::RewardInfo {
            user: user.clone(),
            denom: denom.clone(),
            accrued: amount,
            last_index: crate::index::RewardIndex { hi: 0, lo: 0 },
        };
        rows.insert(j, fresh);
        proof {
            assert(row_views(rows@) =~= rows0.insert(j as int, fresh@));
            assert forall|u2: Seq<char>, d2: Seq<char>| true implies #[trigger] rows_accrued(
                row_views(rows@),
                u2,
                d2,
            ) == rows_accrued(rows0, u2, d2) + (if u2 == user@ && d2 == denom@ {
                amount as int
            } else {
                0
            }) by {
                lemma_rows_insert(rows0, j as int, fresh@, u2, d2);
            }
            assert forall|u2: Seq<char>, d2: Seq<char>| true implies #[trigger] rows_last(
                row_views(rows@),
                u2,
                d2,
            ) == rows_last(rows0, u2, d2) by {
                lemma_rows_insert(rows0, j as int, fresh@, u2, d2);
            }
            assert forall|u2: Seq<char>, d2: Seq<char>| true implies #[trigger] rows_count(
                row_views(rows@),
                u2,
                d2,
            ) == rows_count(rows0, u2, d2) + (if u2 == user@ && d2 == denom@ && rows_count(
                rows0,
                u2,
                d2,
            ) == 0 {
                1int
            } else {
                0
            }) by {
                lemma_rows_insert(rows0, j as int, fresh@, u2, d2);
            }
            let now_v = row_views(rows@);
            assert forall|a: int, b: int|
                0 <= a < b < now_v.len() implies crate::state::row_key_lt(
                now_v[a],
                now_v[b],
            ) by {
                assert(now_v[a] == if a < j {
                    rows0[a]
                } else if a == j {
                    fresh@
                } else {
                    rows0[a - 1]
                });
                assert(now_v[b] == if b < j {
                    rows0[b]
                } else if b == j {
                    fresh@
                } else {
                    rows0[b - 1]
                });
                assert(fresh@.user == key.user && fresh@.denom == key.denom);
            }
            assert(bumped_rows(old(rows)@, rows@, user@, denom@)) by {
                assert forall|jj: int|
                    0 <= jj < rows@.len() implies ((#[trigger] rows@[jj]).user@ == user@
                    && rows@[jj].denom@ == denom@ && rows@[jj].accrued > 0
                    && rows@[jj].last_index.num() >= 0) || exists|k: int|
                    0 <= k < old(rows)@.len() && (#[trigger] old(rows)@[k]).user@
                        == rows@[jj].user@ && old(rows)@[k].denom@ == rows@[jj].denom@ && old(
                        rows,
                    )@[k].last_index == rows@[jj].last_index && rows@[jj].accrued >= old(
                        rows,
                    )@[k].accrued by {
                    if jj < j {
                        assert(old(rows)@[jj].user@ == rows@[jj].user@ && old(rows)@[jj].denom@
                            == rows@[jj].denom@ && old(rows)@[jj].last_index
                            == rows@[jj].last_index && rows@[jj].accrued >= old(
                            rows,
                        )@[jj].accrued);
                    } else if jj == j {
                        assert(rows@[jj].last_index.num() == 0);
                    } else {
                        assert(old(rows)@[jj - 1].user@ == rows@[jj].user@ && old(rows)@[jj
                            - 1].denom@ == rows@[jj].denom@ && old(rows)@[jj - 1].last_index
                            == rows@[jj].last_index && rows@[jj].accrued >= old(rows)@[jj
                            - 1].accrued);
                    }
                }
            }
        }
        true
    }
}


/// A sorted row list holds at most one row per key, so the key's sum is
/// a stored 128-bit amount (or zero).
#[verifier::spinoff_prover]
pub proof fn lemma_rows_accrued_bounded(s: Seq<crate::state::RowV>, u: Seq<char>, d: Seq<char>)
    requires
        sorted_rows(s),
        forall|i: int| 0 <= i < s.len() ==> 0 <= (#[trigger] s[i]).accrued <= u128::MAX,
    ensures
        0 <= rows_accrued(s, u, d) <= u128::MAX,
{
    if exists|i: int| 0 <= i < s.len() && crate::state::row_match(#[trigger] s[i], u, d) {
        let i = choose|i: int| 0 <= i < s.len() && crate::state::row_match(#[trigger] s[i], u, d);
        crate::state::lemma_rows_found(s, i);
    } else {
        assert(forall|i: int| 0 <= i < s.len() ==> !crate::state::row_match(s[i], u, d));
        crate::state::lemma_rows_absent(s, u, d);
    }
}

impl RewardsSM {
    /// Adds the given coins straight to the account's stored rewards,
    /// without touching any checkpoint or moving any index: the way
    /// outside sources hand one account extra rewards. A zero-valued
    /// index entry is created for any new denom so later folds see it.
    ///
    /// Fails with `Overflow` exactly when some denom's stored total
    /// would leave its range; the ledger is then unchanged.
    #[verifier::rlimit(100)]
    #[verifier::spinoff_prover]
    pub fn add_accrued_rewards(&mut self, user: &String, rewards: &Vec<Coin>) -> (r: Result<
        (),
        RewardsError,
    >)
        requires
            old(self).wf(),
            crate::coins::positive_coins(views(rewards@)),
        ensures
            final(self).wf(),
            final(self).total_staked == old(self).total_staked,
            final(self).user_weights@ == old(self).user_weights@,
            r is Err <==> exists|d: Seq<char>|
                (#[trigger] old(self).accrued_of(user@, d)) + amount_of(views(rewards@), d)
                    > u128::MAX,
            match r {
                Ok(()) => {
                    &&& forall|d: Seq<char>|
                        #[trigger] final(self).accrued_of(user@, d) == old(self).accrued_of(
                            user@,
                            d,
                        ) + amount_of(views(rewards@), d)
                    &&& forall|d: Seq<char>|
                        #[trigger] final(self).last_of(user@, d) == old(self).last_of(user@, d)
                    &&& forall|d: Seq<char>|
                        #[trigger] final(self).has_row(user@, d) <==> (old(self).has_row(user@, d)
                            || has_denom(rewards@, d))
                    &&& forall|v: Seq<char>, d: Seq<char>|
                        v != user@ ==> #[trigger] final(self).accrued_of(v, d) == old(
                            self,
                        ).accrued_of(v, d) && final(self).last_of(v, d) == old(self).last_of(v, d)
                            && final(self).has_row(v, d) == old(self).has_row(v, d)
                    &&& forall|d: Seq<char>|
                        #[trigger] final(self).index_num(d) == old(self).index_num(d)
                    &&& forall|d: Seq<char>|
                        #[trigger] final(self).has_index(d) <==> (old(self).has_index(d)
                            || has_denom(rewards@, d))
                },
                Err(e) => {
                    &&& e == RewardsError::Overflow
                    &&& gi_views(final(self).global_indices@) == gi_views(
                        old(self).global_indices@,
                    )
                    &&& row_views(final(self).user_rewards@) == row_views(old(self).user_rewards@)
                },
            },
    {
        // work on copies so a failure changes nothing
        let mut gi: Vec<IndexEntry> = Vec::new();
        let mut c: usize = 0;
        while c < self.global_indices.len()
            invariant
                c <= self.global_indices@.len(),
                gi@.len() == c,
                forall|k: int|
                    0 <= k < c ==> (#[trigger] gi@[k]).denom@ == self.global_indices@[k].denom@
                        && gi@[k].index == self.global_indices@[k].index,
                *self == *old(self),
            decreases self.global_indices@.len() - c,
        {
            let e = &self.global_indices[c];
            gi.push(IndexEntry { denom: e.denom.clone(), index: e.index });
            c = c + 1;
        }
        let mut rows: Vec<crate::state::RewardInfo> = Vec::new();
        let mut c2: usize = 0;
        while c2 < self.user_rewards.len()
            invariant
                c2 <= self.user_rewards@.len(),
                rows@.len() == c2,
                forall|k: int|
                    0 <= k < c2 ==> (#[trigger] rows@[k]).user@ == self.user_rewards@[k].user@
                        && rows@[k].denom@ == self.user_rewards@[k].denom@ && rows@[k].accrued
                        == self.user_rewards@[k].accrued && rows@[k].last_index
                        == self.user_rewards@[k].last_index,
                *self == *old(self),
            decreases self.user_rewards@.len() - c2,
        {
            let e = self.user_rewards[c2].clone();
            rows.push(e);
            c2 = c2 + 1;
        }
        let ghost gi0 = gi_views(self.global_indices@);
        let ghost rows0 = row_views(self.user_rewards@);
        proof {
            assert(gi_views(gi@) =~= gi0);
            assert(row_views(rows@) =~= rows0);
            assert forall|d: Seq<char>| #[trigger]
                has_in(gi@, d) <==> has_in(self.global_indices@, d) by {
                if has_in(gi@, d) {
                    let k = choose|k: int| 0 <= k < gi@.len() && gi@[k].denom@ == d;
                    assert(self.global_indices@[k].denom@ == d);
                }
                if has_in(self.global_indices@, d) {
                    let k = choose|k: int|
                        0 <= k < self.global_indices@.len() && self.global_indices@[k].denom@
                            == d;
                    assert(gi@[k].denom@ == d);
                }
            }
            assert(views(rewards@).take(0) =~= Seq::<CoinV>::empty());
            assert(rewards@.take(0) =~= Seq::<Coin>::empty());
        }
        let mut i: usize = 0;
        while i < rewards.len()
            invariant
                i <= rewards@.len(),
                *self == *old(self),
                old(self).wf(),
                crate::coins::positive_coins(views(rewards@)),
                gi0 == gi_views(old(self).global_indices@),
                rows0 == row_views(old(self).user_rewards@),
                crate::coins::sorted_coins(gi_views(gi@)),
                sorted_rows(row_views(rows@)),
                forall|j: int|
                    0 <= j < rows@.len() ==> ((#[trigger] rows@[j]).user@ == user@
                        && rows@[j].accrued > 0 && rows@[j].last_index.num() == 0 && has_denom(
                        rewards@.take(i as int),
                        rows@[j].denom@,
                    )) || exists|k: int|
                        0 <= k < old(self).user_rewards@.len() && (#[trigger] old(
                            self,
                        ).user_rewards@[k]).user@ == rows@[j].user@ && old(
                            self,
                        ).user_rewards@[k].denom@ == rows@[j].denom@ && old(
                            self,
                        ).user_rewards@[k].last_index == rows@[j].last_index && rows@[j].accrued
                            >= old(self).user_rewards@[k].accrued,
                forall|d: Seq<char>|
                    #[trigger] amount_of(gi_views(gi@), d) == amount_of(gi0, d),
                forall|d: Seq<char>|
                    #[trigger] has_in(gi@, d) <==> (has_in(old(self).global_indices@, d)
                        || has_denom(rewards@.take(i as int), d)),
                forall|d: Seq<char>|
                    #[trigger] rows_accrued(row_views(rows@), user@, d) == rows_accrued(
                        rows0,
                        user@,
                        d,
                    ) + amount_of(views(rewards@).take(i as int), d),
                forall|d: Seq<char>|
                    #[trigger] rows_last(row_views(rows@), user@, d) == rows_last(rows0, user@, d),
                forall|d: Seq<char>|
                    #[trigger] rows_count(row_views(rows@), user@, d) == rows_count(
                        rows0,
                        user@,
                        d,
                    ) + (if rows_count(rows0, user@, d) == 0 && has_denom(
                        rewards@.take(i as int),
                        d,
                    ) {
                        1int
                    } else {
                        0
                    }),
                forall|v: Seq<char>, d: Seq<char>|
                    v != user@ ==> #[trigger] rows_accrued(row_views(rows@), v, d) == rows_accrued(
                        rows0,
                        v,
                        d,
                    ) && rows_last(row_views(rows@), v, d) == rows_last(rows0, v, d)
                        && rows_count(row_views(rows@), v, d) == rows_count(rows0, v, d),
            decreases rewards@.len() - i,
        {
            let coin = &rewards[i];
            proof {
                assert(views(rewards@).take(i + 1) =~= views(rewards@).take(i as int).push(
                    views(rewards@)[i as int],
                ));
                assert forall|d: Seq<char>|
                    #[trigger] amount_of(views(rewards@).take(i + 1), d) == amount_of(
                        views(rewards@).take(i as int),
                        d,
                    ) + crate::coins::part_of(views(rewards@)[i as int], d) by {
                    crate::coins::lemma_amount_of_push(
                        views(rewards@).take(i as int),
                        views(rewards@)[i as int],
                        d,
                    );
                }
                assert forall|d: Seq<char>| #[trigger]
                    has_denom(rewards@.take(i + 1), d) <==> (has_denom(rewards@.take(i as int), d)
                        || rewards@[i as int].denom@ == d) by {
                    if has_denom(rewards@.take(i as int), d) {
                        let k = choose|k: int|
                            0 <= k < rewards@.take(i as int).len() && (#[trigger] rewards@.take(
                                i as int,
                            )[k]).denom@ == d;
                        assert(rewards@.take(i + 1)[k].denom@ == d);
                    }
                    if rewards@[i as int].denom@ == d {
                        assert(rewards@.take(i + 1)[i as int].denom@ == d);
                    }
                    if has_denom(rewards@.take(i + 1), d) {
                        let k = choose|k: int|
                            0 <= k < rewards@.take(i + 1).len() && (#[trigger] rewards@.take(
                                i + 1,
                            )[k]).denom@ == d;
                        if k < i {
                            assert(rewards@.take(i as int)[k].denom@ == d);
                        }
                    }
                }
                crate::state::lemma_gi_in_range(gi@);
            }
            let ghost rows_pre = row_views(rows@);
            let ghost rows_vec_pre = rows@;
            let zero_delta = crate::index::RewardIndex { hi: 0, lo: 0 };
            proof {
                assert((0int) * crate::index::limb_base() == 0) by (nonlinear_arith);
                assert(zero_delta.num() == 0);
            }
            let ok_gi = gi_bump(&mut gi, &coin.denom, zero_delta);
            if !ok_gi {
                proof {
                    assert(false);
                }
                return Err(RewardsError::Overflow);
            }
            let ok = row_bump(&mut rows, user, &coin.denom, coin.amount);
            if !ok {
                proof {
                    let d = coin.denom@;
                    assert(rows_accrued(rows_pre, user@, d) + coin.amount > u128::MAX);
                    assert(old(self).accrued_of(user@, d) + amount_of(
                        views(rewards@).take(i + 1),
                        d,
                    ) > u128::MAX);
                    assert(forall|k: int|
                        0 <= k < views(rewards@).len() ==> (#[trigger] views(rewards@)[k]).amount
                            >= 0);
                    assert(views(rewards@) =~= views(rewards@).take(i + 1) + views(rewards@).skip(
                        i + 1,
                    ));
                    crate::coins::lemma_amount_of_concat(
                        views(rewards@).take(i + 1),
                        views(rewards@).skip(i + 1),
                        d,
                    );
                    assert(forall|k: int|
                        0 <= k < views(rewards@).skip(i + 1).len() ==> (#[trigger] views(
                            rewards@,
                        ).skip(i + 1)[k]).amount >= 0);
                    crate::coins::lemma_amount_of_nonneg(views(rewards@).skip(i + 1), d);
                    assert(old(self).accrued_of(user@, d) + amount_of(views(rewards@), d)
                        > u128::MAX);
                    assert(exists|dd: Seq<char>|
                        (#[trigger] old(self).accrued_of(user@, dd)) + amount_of(
                            views(rewards@),
                            dd,
                        ) > u128::MAX);
                }
                return Err(RewardsError::Overflow);
            }
            proof {
                assert(bumped_rows(rows_vec_pre, rows@, user@, coin.denom@));
                assert forall|j: int|
                    0 <= j < rows@.len() implies ((#[trigger] rows@[j]).user@ == user@
                    && rows@[j].accrued > 0 && rows@[j].last_index.num() == 0 && has_denom(
                    rewards@.take(i + 1),
                    rows@[j].denom@,
                )) || exists|k: int|
                    0 <= k < old(self).user_rewards@.len() && (#[trigger] old(
                        self,
                    ).user_rewards@[k]).user@ == rows@[j].user@ && old(
                        self,
                    ).user_rewards@[k].denom@ == rows@[j].denom@ && old(
                        self,
                    ).user_rewards@[k].last_index == rows@[j].last_index && rows@[j].accrued
                        >= old(self).user_rewards@[k].accrued by {
                    if rows@[j].user@ == user@ && rows@[j].denom@ == coin.denom@
                        && rows@[j].accrued > 0 && rows@[j].last_index.num() == 0 {
                        assert(has_denom(rewards@.take(i + 1), rows@[j].denom@));
                    } else {
                        let k0 = choose|k0: int|
                            0 <= k0 < rows_vec_pre.len() && (#[trigger] rows_vec_pre[k0]).user@
                                == rows@[j].user@ && rows_vec_pre[k0].denom@ == rows@[j].denom@
                                && rows_vec_pre[k0].last_index == rows@[j].last_index
                                && rows@[j].accrued >= rows_vec_pre[k0].accrued;
                        if rows_vec_pre[k0].user@ == user@ && rows_vec_pre[k0].accrued > 0
                            && rows_vec_pre[k0].last_index.num() == 0 && has_denom(
                            rewards@.take(i as int),
                            rows_vec_pre[k0].denom@,
                        ) {
                            assert(has_denom(rewards@.take(i + 1), rows@[j].denom@));
                        } else {
                            let k = choose|k: int|
                                0 <= k < old(self).user_rewards@.len() && (#[trigger] old(
                                    self,
                                ).user_rewards@[k]).user@ == rows_vec_pre[k0].user@ && old(
                                    self,
                                ).user_rewards@[k].denom@ == rows_vec_pre[k0].denom@ && old(
                                    self,
                                ).user_rewards@[k].last_index == rows_vec_pre[k0].last_index
                                    && rows_vec_pre[k0].accrued >= old(
                                    self,
                                ).user_rewards@[k].accrued;
                            assert(old(self).user_rewards@[k].user@ == rows@[j].user@);
                        }
                    }
                }
            }
            i = i + 1;
        }
        proof {
            assert(views(rewards@).take(rewards@.len() as int) =~= views(rewards@));
            assert(rewards@.take(rewards@.len() as int) =~= rewards@);
        }
        self.global_indices = gi;
        self.user_rewards = rows;
        proof {
            lemma_has_index_iff(*old(self));
            lemma_has_index_iff(*self);
            assert forall|d: Seq<char>| #[trigger]
                self.has_index(d) <==> has_in(gi@, d) by {
                assert(self.global_indices@ == gi@);
                if self.has_index(d) {
                    let k = choose|k: int|
                        0 <= k < self.global_indices@.len() && self.global_indices@[k].denom@
                            == d;
                    assert(gi@[k].denom@ == d);
                }
                if has_in(gi@, d) {
                    let k = choose|k: int| 0 <= k < gi@.len() && gi@[k].denom@ == d;
                    assert(self.global_indices@[k].denom@ == d);
                }
            }
            // a stored row's total always fits, so nothing overflowed
            assert forall|d: Seq<char>| true implies !((#[trigger] old(self).accrued_of(user@, d))
                + amount_of(views(rewards@), d) > u128::MAX) by {
                assert(forall|ii: int|
                    0 <= ii < row_views(rows@).len() ==> 0 <= (#[trigger] row_views(
                        rows@,
                    )[ii]).accrued <= u128::MAX);
                lemma_rows_accrued_bounded(row_views(rows@), user@, d);
                assert(rows_accrued(row_views(rows@), user@, d) == old(self).accrued_of(user@, d)
                    + amount_of(views(rewards@), d));
            }
            // a key's count is zero or one, so presence follows the sums
            assert forall|d: Seq<char>| #[trigger]
                self.has_row(user@, d) <==> (old(self).has_row(user@, d) || has_denom(
                rewards@,
                d,
            )) by {
                if exists|ii: int|
                    0 <= ii < rows0.len() && crate::state::row_match(
                        #[trigger] rows0[ii],
                        user@,
                        d,
                    ) {
                    let ii = choose|ii: int|
                        0 <= ii < rows0.len() && crate::state::row_match(
                            #[trigger] rows0[ii],
                            user@,
                            d,
                        );
                    crate::state::lemma_rows_found(rows0, ii);
                } else {
                    assert(forall|ii: int|
                        0 <= ii < rows0.len() ==> !crate::state::row_match(
                            #[trigger] rows0[ii],
                            user@,
                            d,
                        ));
                    crate::state::lemma_rows_absent(rows0, user@, d);
                }
            }
            // the invariant holds again: rows point at existing indices
            // they do not exceed, and every row still earns its keep
            assert forall|j: int|
                0 <= j < self.user_rewards@.len() implies self.has_index(
                #[trigger] self.user_rewards@[j].denom@,
            ) && self.user_rewards@[j].last_index.num() <= self.index_num(
                self.user_rewards@[j].denom@,
            ) && (self.user_rewards@[j].accrued > 0 || self.weight_of(
                self.user_rewards@[j].user@,
            ) > 0) by {
                let d = self.user_rewards@[j].denom@;
                assert(rows_count(row_views(rows@), self.user_rewards@[j].user@, d) >= 1) by {
                    crate::state::lemma_rows_found(row_views(rows@), j);
                }
                crate::state::lemma_gi_in_range(self.global_indices@);
                if self.user_rewards@[j].user@ == user@ && self.user_rewards@[j].accrued > 0
                    && self.user_rewards@[j].last_index.num() == 0 && has_denom(rewards@, d) {
                    assert(self.has_index(d));
                } else {
                }
            }
        }
        Ok(())
    }
}

} // verus!
