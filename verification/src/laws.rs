use vstd::prelude::*;
use vstd::arithmetic::div_mod::{lemma_fundamental_div_mod, lemma_div_is_ordered,
    lemma_div_multiples_vanish, lemma_mod_bound, lemma_div_pos_is_pos};
use vstd::arithmetic::mul::{lemma_mul_is_distributive_add, lemma_mul_nonnegative,
    lemma_mul_inequality};
use crate::coins::{amount_of, sorted_coins, CoinV, lemma_amount_of_found};
use crate::denoms::{lex_lt, lemma_lex_lt_connected, lemma_lex_lt_irreflexive};
use crate::fold::{facc, fold_coins, fold_coins_rec, keep_row};
use crate::index::FRAC_UNIT;
use crate::state::{gi_views, row_views, sum_weights, w_views, IndexEntry, RewardsSM};
use crate::state_machine::{coin_in, delta_sum, has_in, lemma_delta_sum_nonneg, post_fold_state};

verus! {

/// Conservation of weight: in every well-formed ledger the recorded
/// total equals the sum of all account weights. Every operation of
/// [`RewardsSM`] returns a well-formed ledger, so this holds at every
/// commit.
#[verifier::spinoff_prover]
pub proof fn lemma_weight_conservation(l: RewardsSM)
    requires
        l.wf(),
    ensures
        l.total_staked == sum_weights(w_views(l.user_weights@)),
{
}

/// Checkpoint bound: no stored checkpoint ever runs ahead of its denom's
/// global index.
#[verifier::spinoff_prover]
pub proof fn lemma_checkpoint_bound(l: RewardsSM, i: int)
    requires
        l.wf(),
        0 <= i < l.user_rewards@.len(),
    ensures
        l.has_index(l.user_rewards@[i].denom@),
        l.user_rewards@[i].last_index.num() <= l.index_num(l.user_rewards@[i].denom@),
{
}

/// Pruning law: every stored checkpoint row either carries folded
/// rewards or belongs to an account that still has weight. (A row can be
/// missing while its account has weight: rows appear lazily, at the
/// first fold after a denom's index is created.)
#[verifier::spinoff_prover]
pub proof fn lemma_prune_law(l: RewardsSM, i: int)
    requires
        l.wf(),
        0 <= i < l.user_rewards@.len(),
    ensures
        l.user_rewards@[i].accrued > 0 || l.weight_of(l.user_rewards@[i].user@) > 0,
{
}

/// What one distribution step does to a ledger, as guaranteed by
/// `RewardsSM::distribute_rewards`: every index grows by its share of
/// the distributed coins, nothing else moves.
pub open spec fn distribute_step(pre: RewardsSM, post: RewardsSM, rs: Seq<CoinV>) -> bool {
    &&& pre.total_staked > 0
    &&& post.total_staked == pre.total_staked
    &&& post.user_weights@ == pre.user_weights@
    &&& post.user_rewards@ == pre.user_rewards@
    &&& sorted_coins(gi_views(post.global_indices@))
    &&& forall|i: int| 0 <= i < rs.len() ==> (#[trigger] rs[i]).amount >= 0
    &&& forall|d: Seq<char>|
        #[trigger] post.index_num(d) == pre.index_num(d) + delta_sum(
            rs,
            d,
            pre.total_staked as int,
        )
    &&& forall|d: Seq<char>| #[trigger] post.has_index(d) <==> (pre.has_index(d) || coin_in(rs, d))
}

/// Index monotonicity: a distribution never lowers any index. Every
/// other operation leaves the indices untouched, so indices never
/// decrease across any commit.
#[verifier::spinoff_prover]
pub proof fn lemma_index_monotonic(pre: RewardsSM, post: RewardsSM, rs: Seq<CoinV>)
    requires
        distribute_step(pre, post, rs),
    ensures
        forall|d: Seq<char>| #[trigger] post.index_num(d) >= pre.index_num(d),
{
    assert forall|d: Seq<char>| #[trigger] post.index_num(d) >= pre.index_num(d) by {
        lemma_delta_sum_nonneg(rs, d, pre.total_staked as int);
    }
}

/// The total paid out to a list of weights when each receives
/// `floor(w * dnum / 10^18)`.
pub open spec fn payout_sum(ws: Seq<int>, dnum: int) -> int
    decreases ws.len(),
{
    if ws.len() == 0 {
        0
    } else {
        (ws[0] * dnum) / (FRAC_UNIT as int) + payout_sum(ws.skip(1), dnum)
    }
}

/// Floor division distributes subadditively over a sum.
#[verifier::spinoff_prover]
pub proof fn lemma_div_superadd(a: int, b: int, f: int)
    requires
        a >= 0,
        b >= 0,
        f > 0,
    ensures
        a / f + b / f <= (a + b) / f,
{
    lemma_fundamental_div_mod(a, f);
    lemma_fundamental_div_mod(b, f);
    lemma_mod_bound(a, f);
    lemma_mod_bound(b, f);
    let s = a / f + b / f;
    assert(f * s == f * (a / f) + f * (b / f)) by {
        lemma_mul_is_distributive_add(f, a / f, b / f);
    }
    assert(f * s <= a + b);
    lemma_div_is_ordered(f * s, a + b, f);
    lemma_div_multiples_vanish(s, f);
}

/// Reward conservation (floor): when an amount `r_amt` is distributed
/// against total stake `total`, the index rises by
/// `dnum = floor(r_amt * 10^18 / total)`, and the floored payouts of all
/// stakers together never exceed `r_amt`; the rounding dust stays on the
/// index.
#[verifier::spinoff_prover]
pub proof fn lemma_distribution_conservation(ws: Seq<int>, r_amt: int, total: int)
    requires
        total > 0,
        r_amt >= 0,
        forall|i: int| 0 <= i < ws.len() ==> ws[i] >= 0,
        sum_ints(ws) == total,
    ensures
        payout_sum(ws, (r_amt * (FRAC_UNIT as int)) / total) <= r_amt,
{
    let f = FRAC_UNIT as int;
    let dnum = (r_amt * f) / total;
    assert(dnum >= 0) by {
        lemma_mul_nonnegative(r_amt, f);
        lemma_div_pos_is_pos(r_amt * f, total);
    }
    lemma_payout_le_pooled(ws, dnum);
    // sum * dnum <= r_amt * 10^18, so the pooled floor payout is at most r_amt
    assert(total * dnum <= r_amt * f) by {
        lemma_fundamental_div_mod(r_amt * f, total);
        lemma_mod_bound(r_amt * f, total);
    }
    lemma_div_is_ordered(total * dnum, r_amt * f, f);
    assert((r_amt * f) / f == r_amt) by {
        lemma_div_multiples_vanish(r_amt, f);
        assert(f * r_amt == r_amt * f) by {
            vstd::arithmetic::mul::lemma_mul_is_commutative(f, r_amt);
        }
    }
    assert(payout_sum(ws, dnum) <= (total * dnum) / f);
}

pub open spec fn sum_ints(ws: Seq<int>) -> int
    decreases ws.len(),
{
    if ws.len() == 0 {
        0
    } else {
        ws[0] + sum_ints(ws.skip(1))
    }
}

/// The floored per-staker payouts never exceed the floored pooled payout.
#[verifier::spinoff_prover]
proof fn lemma_payout_le_pooled(ws: Seq<int>, dnum: int)
    requires
        dnum >= 0,
        forall|i: int| 0 <= i < ws.len() ==> ws[i] >= 0,
    ensures
        payout_sum(ws, dnum) <= (sum_ints(ws) * dnum) / (FRAC_UNIT as int),
    decreases ws.len(),
{
    let f = FRAC_UNIT as int;
    if ws.len() == 0 {
        assert((0int * dnum) / f == 0) by {
            assert(0int * dnum == 0) by {
                vstd::arithmetic::mul::lemma_mul_basics(dnum);
            }
        }
    } else {
        assert(forall|i: int| 0 <= i < ws.skip(1).len() ==> ws.skip(1)[i] == ws[i + 1]);
        lemma_payout_le_pooled(ws.skip(1), dnum);
        let rest = sum_ints(ws.skip(1));
        assert(rest >= 0) by {
            lemma_sum_ints_nonneg(ws.skip(1));
        }
        assert(ws[0] * dnum >= 0) by {
            lemma_mul_nonnegative(ws[0], dnum);
        }
        assert(rest * dnum >= 0) by {
            lemma_mul_nonnegative(rest, dnum);
        }
        lemma_div_superadd(ws[0] * dnum, rest * dnum, f);
        assert(ws[0] * dnum + rest * dnum == (ws[0] + rest) * dnum) by {
            vstd::arithmetic::mul::lemma_mul_is_distributive_add_other_way(dnum, ws[0], rest);
        }
        assert(sum_ints(ws) == ws[0] + rest);
    }
}

#[verifier::spinoff_prover]
proof fn lemma_sum_ints_nonneg(ws: Seq<int>)
    requires
        forall|i: int| 0 <= i < ws.len() ==> ws[i] >= 0,
    ensures
        sum_ints(ws) >= 0,
    decreases ws.len(),
{
    if ws.len() > 0 {
        assert(forall|i: int| 0 <= i < ws.skip(1).len() ==> ws.skip(1)[i] == ws[i + 1]);
        lemma_sum_ints_nonneg(ws.skip(1));
    }
}

/// After a claim, nothing is left to fold: every per-denom folded amount
/// is zero.
#[verifier::spinoff_prover]
proof fn lemma_facc_zero_after_claim(pre: RewardsSM, mid: RewardsSM, u: Seq<char>, d: Seq<char>)
    requires
        pre.wf(),
        mid.wf(),
        post_fold_state(pre, mid, u, pre.weight_of(u), pre.weight_of(u), true),
    ensures
        facc(mid.global_indices@, row_views(mid.user_rewards@), u, mid.weight_of(u), d) == 0,
{
    let f = FRAC_UNIT as int;
    let w = mid.weight_of(u);
    if pre.has_index(d) {
        assert(mid.accrued_of(u, d) == 0);
        if keep_row(
            pre.global_indices@,
            row_views(pre.user_rewards@),
            u,
            pre.weight_of(u),
            pre.weight_of(u),
            true,
            d,
        ) {
            assert(mid.last_of(u, d) == pre.index_num(d));
            assert(mid.index_num(d) == pre.index_num(d));
            assert(w * (mid.index_num(d) - mid.last_of(u, d)) == 0) by {
                vstd::arithmetic::mul::lemma_mul_basics(w);
            }
            assert((0int) / f == 0);
        } else {
            // the row was pruned: the weight is zero, so nothing accrues
            assert(pre.weight_of(u) >= 0) by {
                assert(forall|i: int|
                    0 <= i < w_views(pre.user_weights@).len() ==> (#[trigger] w_views(
                        pre.user_weights@,
                    )[i]).amount >= 0);
                crate::coins::lemma_amount_of_nonneg(w_views(pre.user_weights@), u);
            }
            assert(w == 0);
            assert(w * (mid.index_num(d) - mid.last_of(u, d)) == 0) by {
                vstd::arithmetic::mul::lemma_mul_basics(
                    mid.index_num(d) - mid.last_of(u, d),
                );
            }
            assert((0int) / f == 0);
        }
    } else {
        assert(!mid.has_index(d));
        assert(!mid.has_row(u, d));
        assert(mid.accrued_of(u, d) == 0);
        assert(mid.last_of(u, d) == 0);
        assert(mid.index_num(d) == 0) by {
            assert forall|i: int| 0 <= i < mid.global_indices@.len() implies (
            #[trigger] mid.global_indices@[i]).denom@ != d by {
                if mid.global_indices@[i].denom@ == d {
                    assert(mid.has_index(d));
                }
            }
            crate::state::lemma_gi_absent(mid.global_indices@, d);
        }
        assert(w * (0int - 0int) == 0) by {
            vstd::arithmetic::mul::lemma_mul_basics(w);
        }
        assert((0int) / f == 0);
    }
}

/// If every per-denom folded amount is zero, the folded coin list is
/// empty.
#[verifier::spinoff_prover]
proof fn lemma_fold_coins_empty(
    ds: Seq<IndexEntry>,
    gi: Seq<IndexEntry>,
    rows: Seq<crate::state::RowV>,
    u: Seq<char>,
    w: int,
)
    requires
        forall|d: Seq<char>| #[trigger] facc(gi, rows, u, w, d) == 0,
    ensures
        fold_coins_rec(ds, gi, rows, u, w) == Seq::<CoinV>::empty(),
    decreases ds.len(),
{
    if ds.len() == 0 {
    } else {
        lemma_fold_coins_empty(ds.skip(1), gi, rows, u, w);
        assert(fold_coins_rec(ds, gi, rows, u, w) =~= Seq::<CoinV>::empty());
    }
}

/// Idempotent claim: immediately after a claim, a second claim by the
/// same account pays out nothing and leaves the ledger exactly as it is.
/// (The operation surface turns the empty payout into a
/// `NoRewardsToClaim` failure.)
#[verifier::spinoff_prover]
pub proof fn lemma_claim_idempotent(pre: RewardsSM, mid: RewardsSM, post: RewardsSM, u: Seq<char>)
    requires
        pre.wf(),
        mid.wf(),
        post.wf(),
        // `mid` is `pre` after a claim by `u`; `post` is `mid` after another
        post_fold_state(pre, mid, u, pre.weight_of(u), pre.weight_of(u), true),
        mid.total_staked == pre.total_staked,
        post_fold_state(mid, post, u, mid.weight_of(u), mid.weight_of(u), true),
        post.total_staked == mid.total_staked,
    ensures
        // the second claim pays nothing ...
        fold_coins(mid.global_indices@, row_views(mid.user_rewards@), u, mid.weight_of(u))
            == Seq::<CoinV>::empty(),
        // ... and leaves every observable part of the ledger unchanged
        post.total_staked == mid.total_staked,
        forall|d: Seq<char>| #[trigger] post.index_num(d) == mid.index_num(d),
        forall|d: Seq<char>| #[trigger] post.has_index(d) <==> mid.has_index(d),
        forall|v: Seq<char>| #[trigger] post.weight_of(v) == mid.weight_of(v),
        forall|v: Seq<char>, d: Seq<char>| #[trigger] post.accrued_of(v, d) == mid.accrued_of(v, d),
        forall|v: Seq<char>, d: Seq<char>| #[trigger] post.last_of(v, d) == mid.last_of(v, d),
        forall|v: Seq<char>, d: Seq<char>| #[trigger] post.has_row(v, d) == mid.has_row(v, d),
{
    assert forall|d: Seq<char>|
        #[trigger] facc(mid.global_indices@, row_views(mid.user_rewards@), u, mid.weight_of(u), d)
            == 0 by {
        lemma_facc_zero_after_claim(pre, mid, u, d);
    }
    lemma_fold_coins_empty(
        mid.global_indices@,
        mid.global_indices@,
        row_views(mid.user_rewards@),
        u,
        mid.weight_of(u),
    );
    let w = mid.weight_of(u);
    assert forall|v: Seq<char>, d: Seq<char>| true implies #[trigger] post.accrued_of(v, d)
        == mid.accrued_of(v, d) by {
        lemma_second_claim_pointwise(pre, mid, post, u, v, d);
    }
    assert forall|v: Seq<char>, d: Seq<char>| true implies #[trigger] post.last_of(v, d)
        == mid.last_of(v, d) by {
        lemma_second_claim_pointwise(pre, mid, post, u, v, d);
    }
    assert forall|v: Seq<char>, d: Seq<char>| true implies #[trigger] post.has_row(v, d)
        == mid.has_row(v, d) by {
        lemma_second_claim_pointwise(pre, mid, post, u, v, d);
    }
    assert forall|d: Seq<char>| #[trigger] post.index_num(d) == mid.index_num(d) by {
        assert(post.global_indices@ == mid.global_indices@);
    }
}

/// One key of the ledger after the second claim, compared with the
/// state between the claims.
#[verifier::spinoff_prover]
proof fn lemma_second_claim_pointwise(
    pre: RewardsSM,
    mid: RewardsSM,
    post: RewardsSM,
    u: Seq<char>,
    v: Seq<char>,
    d: Seq<char>,
)
    requires
        pre.wf(),
        mid.wf(),
        post.wf(),
        post_fold_state(pre, mid, u, pre.weight_of(u), pre.weight_of(u), true),
        mid.total_staked == pre.total_staked,
        post_fold_state(mid, post, u, mid.weight_of(u), mid.weight_of(u), true),
        post.total_staked == mid.total_staked,
    ensures
        post.accrued_of(v, d) == mid.accrued_of(v, d),
        post.last_of(v, d) == mid.last_of(v, d),
        post.has_row(v, d) == mid.has_row(v, d),
{
    let w = mid.weight_of(u);
    assert(pre.has_index(d) <==> mid.has_index(d)) by {
        if pre.has_index(d) {
            let k = choose|k: int|
                0 <= k < pre.global_indices@.len() && pre.global_indices@[k].denom@ == d;
            assert(mid.global_indices@[k].denom@ == d);
        }
        if mid.has_index(d) {
            let k = choose|k: int|
                0 <= k < mid.global_indices@.len() && mid.global_indices@[k].denom@ == d;
            assert(pre.global_indices@[k].denom@ == d);
        }
    }
    if v == u {
        if mid.has_index(d) {
            if keep_row(mid.global_indices@, row_views(mid.user_rewards@), u, w, w, true, d) {
                assert(w > 0);
                assert(mid.has_row(u, d) == keep_row(
                    pre.global_indices@,
                    row_views(pre.user_rewards@),
                    u,
                    pre.weight_of(u),
                    pre.weight_of(u),
                    true,
                    d,
                ));
                assert(pre.weight_of(u) == w);
                assert(mid.has_row(u, d));
                assert(post.has_row(u, d));
                assert(post.accrued_of(u, d) == 0);
                assert(mid.accrued_of(u, d) == 0);
                assert(post.last_of(u, d) == mid.index_num(d));
                assert(mid.last_of(u, d) == pre.index_num(d));
                assert(mid.index_num(d) == pre.index_num(d));
            } else {
                assert(mid.weight_of(u) >= 0) by {
                    assert(forall|i: int|
                        0 <= i < w_views(mid.user_weights@).len() ==> (#[trigger] w_views(
                            mid.user_weights@,
                        )[i]).amount >= 0);
                    crate::coins::lemma_amount_of_nonneg(w_views(mid.user_weights@), u);
                }
                assert(w == 0);
                assert(mid.has_row(u, d) == keep_row(
                    pre.global_indices@,
                    row_views(pre.user_rewards@),
                    u,
                    pre.weight_of(u),
                    pre.weight_of(u),
                    true,
                    d,
                ));
                assert(pre.weight_of(u) == w);
                assert(!mid.has_row(u, d));
                assert(!post.has_row(u, d));
                assert(mid.accrued_of(u, d) == 0);
                assert(mid.last_of(u, d) == 0);
                assert(post.accrued_of(u, d) == 0);
                assert(post.last_of(u, d) == 0);
            }
        } else {
            assert(!mid.has_index(d));
            assert(post_fold_state(mid, post, u, mid.weight_of(u), mid.weight_of(u), true));
            assert(!post.has_row(u, d));
            assert(post.accrued_of(u, d) == 0);
            assert(post.last_of(u, d) == 0);
            assert(!pre.has_index(d));
            assert(post_fold_state(pre, mid, u, pre.weight_of(u), pre.weight_of(u), true));
            assert(!mid.has_row(u, d));
            assert(mid.accrued_of(u, d) == 0);
            assert(mid.last_of(u, d) == 0);
        }
    } else {
        assert(v != u);
        assert(post_fold_state(mid, post, u, mid.weight_of(u), mid.weight_of(u), true));
        assert(post.has_row(v, d) == mid.has_row(v, d));
        assert(post.accrued_of(v, d) == mid.accrued_of(v, d));
        assert(post.last_of(v, d) == mid.last_of(v, d));
    }
}

/// Whether denom `d` occurs in the keyed list.
pub open spec fn present(s: Seq<CoinV>, d: Seq<char>) -> bool {
    exists|i: int| 0 <= i < s.len() && (#[trigger] s[i]).denom == d
}

/// Two sorted, duplicate-free keyed lists that agree on membership and
/// on every key's amount are the same list.
#[verifier::spinoff_prover]
pub proof fn lemma_sorted_coins_unique(a: Seq<CoinV>, b: Seq<CoinV>)
    requires
        sorted_coins(a),
        sorted_coins(b),
        forall|d: Seq<char>| #[trigger] present(a, d) <==> present(b, d),
        forall|d: Seq<char>| #[trigger] amount_of(a, d) == amount_of(b, d),
    ensures
        a == b,
    decreases a.len(),
{
    if a.len() == 0 {
        if b.len() > 0 {
            assert(present(b, b[0].denom));
            assert(present(a, b[0].denom));
            let i = choose|i: int| 0 <= i < a.len() && (#[trigger] a[i]).denom == b[0].denom;
            assert(false);
        }
        assert(a =~= b);
    } else {
        assert(present(a, a[0].denom));
        assert(present(b, a[0].denom));
        let j = choose|i: int| 0 <= i < b.len() && (#[trigger] b[i]).denom == a[0].denom;
        assert(b.len() > 0);
        assert(present(b, b[0].denom));
        assert(present(a, b[0].denom));
        let k = choose|i: int| 0 <= i < a.len() && (#[trigger] a[i]).denom == b[0].denom;
        // the two heads carry the same denom
        assert(a[0].denom == b[0].denom) by {
            lemma_lex_lt_connected(a[0].denom, b[0].denom);
            if lex_lt(a[0].denom, b[0].denom) {
                // a's head occurs in b at j, so b[0] <= b[j] = a[0] < b[0]
                if j > 0 {
                    assert(lex_lt(b[0].denom, b[j].denom));
                    crate::denoms::lemma_lex_lt_transitive(a[0].denom, b[0].denom, b[j].denom);
                    lemma_lex_lt_irreflexive(a[0].denom);
                } else {
                    lemma_lex_lt_irreflexive(a[0].denom);
                }
            }
            if lex_lt(b[0].denom, a[0].denom) {
                if k > 0 {
                    assert(lex_lt(a[0].denom, a[k].denom));
                    crate::denoms::lemma_lex_lt_transitive(b[0].denom, a[0].denom, a[k].denom);
                    lemma_lex_lt_irreflexive(b[0].denom);
                } else {
                    lemma_lex_lt_irreflexive(b[0].denom);
                }
            }
        }
        lemma_amount_of_found(a, 0);
        lemma_amount_of_found(b, 0);
        assert(a[0] == b[0]);
        // membership and amounts agree on the tails as well
        assert forall|d: Seq<char>| #[trigger] present(a.skip(1), d) <==> present(
            b.skip(1),
            d,
        ) by {
            if present(a.skip(1), d) {
                let i = choose|i: int|
                    0 <= i < a.skip(1).len() && (#[trigger] a.skip(1)[i]).denom == d;
                assert(a[i + 1].denom == d);
                assert(lex_lt(a[0].denom, d));
                assert(present(a, d));
                assert(present(b, d));
                let i2 = choose|i2: int| 0 <= i2 < b.len() && (#[trigger] b[i2]).denom == d;
                assert(i2 > 0) by {
                    if i2 == 0 {
                        lemma_lex_lt_irreflexive(d);
                    }
                }
                assert(b.skip(1)[i2 - 1].denom == d);
                assert(present(b.skip(1), d));
            }
            if present(b.skip(1), d) {
                let i = choose|i: int|
                    0 <= i < b.skip(1).len() && (#[trigger] b.skip(1)[i]).denom == d;
                assert(b[i + 1].denom == d);
                assert(lex_lt(b[0].denom, d));
                assert(present(b, d));
                assert(present(a, d));
                let i2 = choose|i2: int| 0 <= i2 < a.len() && (#[trigger] a[i2]).denom == d;
                assert(i2 > 0) by {
                    if i2 == 0 {
                        lemma_lex_lt_irreflexive(d);
                    }
                }
                assert(a.skip(1)[i2 - 1].denom == d);
                assert(present(a.skip(1), d));
            }
        }
        assert forall|d: Seq<char>|
            #[trigger] amount_of(a.skip(1), d) == amount_of(b.skip(1), d) by {
            assert(amount_of(a, d) == amount_of(b, d));
        }
        lemma_sorted_coins_unique(a.skip(1), b.skip(1));
        assert forall|i: int| 0 <= i < a.len() implies a[i] == b[i] by {
            if i > 0 {
                assert(a.skip(1)[i - 1] == a[i]);
                assert(b.skip(1)[i - 1] == b[i]);
            }
        }
        assert(a =~= b);
    }
}

/// Order independence: distributing `r1` and then `r2` leaves exactly
/// the same ledger as distributing `r2` and then `r1` — the index
/// entries come out as the very same list, and nothing else moves in
/// either order.
#[verifier::spinoff_prover]
pub proof fn lemma_distribute_order_independent(
    l: RewardsSM,
    m1: RewardsSM,
    f12: RewardsSM,
    m2: RewardsSM,
    f21: RewardsSM,
    r1: Seq<CoinV>,
    r2: Seq<CoinV>,
)
    requires
        distribute_step(l, m1, r1),
        distribute_step(m1, f12, r2),
        distribute_step(l, m2, r2),
        distribute_step(m2, f21, r1),
    ensures
        gi_views(f12.global_indices@) == gi_views(f21.global_indices@),
        f12.total_staked == f21.total_staked,
        f12.user_weights@ == f21.user_weights@,
        f12.user_rewards@ == f21.user_rewards@,
{
    let t = l.total_staked as int;
    assert forall|d: Seq<char>| #[trigger] amount_of(gi_views(f12.global_indices@), d)
        == amount_of(gi_views(f21.global_indices@), d) by {
        assert(f12.index_num(d) == l.index_num(d) + delta_sum(r1, d, t) + delta_sum(r2, d, t));
        assert(f21.index_num(d) == l.index_num(d) + delta_sum(r2, d, t) + delta_sum(r1, d, t));
    }
    assert forall|d: Seq<char>| #[trigger] present(gi_views(f12.global_indices@), d) <==> present(
        gi_views(f21.global_indices@),
        d,
    ) by {
        assert(f12.has_index(d) <==> (l.has_index(d) || coin_in(r1, d) || coin_in(r2, d)));
        assert(f21.has_index(d) <==> (l.has_index(d) || coin_in(r2, d) || coin_in(r1, d)));
        if present(gi_views(f12.global_indices@), d) {
            let i = choose|i: int|
                0 <= i < gi_views(f12.global_indices@).len() && (#[trigger] gi_views(
                    f12.global_indices@,
                )[i]).denom == d;
            assert(f12.global_indices@[i].denom@ == d);
            assert(f12.has_index(d));
            assert(f21.has_index(d));
            let k = choose|k: int|
                0 <= k < f21.global_indices@.len() && f21.global_indices@[k].denom@ == d;
            assert(gi_views(f21.global_indices@)[k].denom == d);
            assert(present(gi_views(f21.global_indices@), d));
        }
        if present(gi_views(f21.global_indices@), d) {
            let i = choose|i: int|
                0 <= i < gi_views(f21.global_indices@).len() && (#[trigger] gi_views(
                    f21.global_indices@,
                )[i]).denom == d;
            assert(f21.global_indices@[i].denom@ == d);
            assert(f21.has_index(d));
            assert(f12.has_index(d));
            let k = choose|k: int|
                0 <= k < f12.global_indices@.len() && f12.global_indices@[k].denom@ == d;
            assert(gi_views(f12.global_indices@)[k].denom == d);
            assert(present(gi_views(f12.global_indices@), d));
        }
    }
    lemma_sorted_coins_unique(gi_views(f12.global_indices@), gi_views(f21.global_indices@));
}

} // verus!
