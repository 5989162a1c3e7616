use vstd::prelude::*;
use crate::coins::{amount_of, views, Coin, CoinV};
use crate::denoms::{lex_lt, lemma_lex_lt_connected, lemma_lex_lt_transitive, str_eq, str_lt};
use crate::errors::RewardsError;
use crate::index::{mul_floor_index, RewardIndex, FRAC_UNIT};
use crate::state::{gi_views, row_views, rows_accrued, rows_count, rows_last, row_key_lt,
    row_match, sorted_rows, IndexEntry, RewardInfo, RowV, lemma_gi_found, lemma_rows_found,
    lemma_rows_absent, lemma_rows_concat};
use crate::state_machine::has_in;

verus! {

impl Clone for RewardInfo {
    #[verifier::spinoff_prover]
    fn clone(&self) -> (r: Self)
        ensures
            r@ == self@,
            r.user@ == self.user@,
            r.denom@ == self.denom@,
            r.accrued == self.accrued,
            r.last_index == self.last_index,
    {
        RewardInfo {
            user: self.user.clone(),
            denom: self.denom.clone(),
            accrued: self.accrued,
            last_index: self.last_index,
        }
    }
}

/// The rewards owed to `u` in denom `d` once the fold catches the
/// checkpoint up with the global index: the stored amount plus
/// `floor(w * (index - checkpoint) / 10^18)`.
pub open spec fn facc(
    gi: Seq<IndexEntry>,
    rows: Seq<RowV>,
    u: Seq<char>,
    w: int,
    d: Seq<char>,
) -> int {
    rows_accrued(rows, u, d) + (w * (amount_of(gi_views(gi), d) - rows_last(rows, u, d))) / (
    FRAC_UNIT as int)
}

/// Whether every folded amount for `u` fits in a `u128`.
pub open spec fn fold_fits(gi: Seq<IndexEntry>, rows: Seq<RowV>, u: Seq<char>, w: int) -> bool {
    forall|d: Seq<char>| has_in(gi, d) ==> #[trigger] facc(gi, rows, u, w, d) <= u128::MAX
}

/// Whether the checkpoint row for `(u, d)` survives a fold that leaves the
/// account with weight `new_w`: rows are pruned exactly when both the
/// stored amount and the weight end at zero.
pub open spec fn keep_row(
    gi: Seq<IndexEntry>,
    rows: Seq<RowV>,
    u: Seq<char>,
    w: int,
    new_w: int,
    withdraw: bool,
    d: Seq<char>,
) -> bool {
    new_w > 0 || (!withdraw && facc(gi, rows, u, w, d) > 0)
}

/// The coin list a fold hands back: for each indexed denom in index
/// order, the folded amount, with zero amounts left out.
pub open spec fn fold_coins_rec(
    ds: Seq<IndexEntry>,
    gi: Seq<IndexEntry>,
    rows: Seq<RowV>,
    u: Seq<char>,
    w: int,
) -> Seq<CoinV>
    decreases ds.len(),
{
    if ds.len() == 0 {
        Seq::empty()
    } else {
        (if facc(gi, rows, u, w, ds[0].denom@) > 0 {
            seq![CoinV { denom: ds[0].denom@, amount: facc(gi, rows, u, w, ds[0].denom@) }]
        } else {
            Seq::empty()
        }) + fold_coins_rec(ds.skip(1), gi, rows, u, w)
    }
}

pub open spec fn fold_coins(gi: Seq<IndexEntry>, rows: Seq<RowV>, u: Seq<char>, w: int) -> Seq<
    CoinV,
> {
    fold_coins_rec(gi, gi, rows, u, w)
}

#[verifier::spinoff_prover]
proof fn lemma_fold_rec_snoc(
    ds: Seq<IndexEntry>,
    e: IndexEntry,
    gi: Seq<IndexEntry>,
    rows: Seq<RowV>,
    u: Seq<char>,
    w: int,
)
    ensures
        fold_coins_rec(ds.push(e), gi, rows, u, w) == fold_coins_rec(ds, gi, rows, u, w) + (if facc(
            gi,
            rows,
            u,
            w,
            e.denom@,
        ) > 0 {
            seq![CoinV { denom: e.denom@, amount: facc(gi, rows, u, w, e.denom@) }]
        } else {
            Seq::<CoinV>::empty()
        }),
    decreases ds.len(),
{
    if ds.len() == 0 {
        assert(ds.push(e)[0] == e);
        assert(ds.push(e).skip(1) =~= Seq::<IndexEntry>::empty());
        assert(fold_coins_rec(Seq::<IndexEntry>::empty(), gi, rows, u, w)
            == Seq::<CoinV>::empty());
        assert(ds =~= Seq::<IndexEntry>::empty());
        assert(fold_coins_rec(ds.push(e), gi, rows, u, w) =~= fold_coins_rec(ds, gi, rows, u, w)
            + (if facc(gi, rows, u, w, e.denom@) > 0 {
            seq![CoinV { denom: e.denom@, amount: facc(gi, rows, u, w, e.denom@) }]
        } else {
            Seq::<CoinV>::empty()
        }));
    } else {
        assert(ds.push(e)[0] == ds[0]);
        assert(ds.push(e).skip(1) =~= ds.skip(1).push(e));
        lemma_fold_rec_snoc(ds.skip(1), e, gi, rows, u, w);
        assert(fold_coins_rec(ds.push(e), gi, rows, u, w) =~= fold_coins_rec(ds, gi, rows, u, w)
            + (if facc(gi, rows, u, w, e.denom@) > 0 {
            seq![CoinV { denom: e.denom@, amount: facc(gi, rows, u, w, e.denom@) }]
        } else {
            Seq::<CoinV>::empty()
        }));
    }
}

/// What one appended row adds to each keyed sum.
#[verifier::spinoff_prover]
proof fn lemma_rows_snoc(s: Seq<RowV>, r: RowV, u: Seq<char>, d: Seq<char>)
    ensures
        rows_accrued(s.push(r), u, d) == rows_accrued(s, u, d) + (if row_match(r, u, d) {
            r.accrued
        } else {
            0
        }),
        rows_last(s.push(r), u, d) == rows_last(s, u, d) + (if row_match(r, u, d) {
            r.last
        } else {
            0
        }),
        rows_count(s.push(r), u, d) == rows_count(s, u, d) + (if row_match(r, u, d) {
            1int
        } else {
            0
        }),
{
    assert(s.push(r) =~= s + seq![r]);
    lemma_rows_concat(s, seq![r], u, d);
    assert(seq![r].skip(1) =~= Seq::<RowV>::empty());
    assert(rows_accrued(seq![r], u, d) == (if row_match(r, u, d) {
        r.accrued
    } else {
        0
    }) + rows_accrued(seq![r].skip(1), u, d));
    assert(rows_last(seq![r], u, d) == (if row_match(r, u, d) {
        r.last
    } else {
        0
    }) + rows_last(seq![r].skip(1), u, d));
    assert(rows_count(seq![r], u, d) == (if row_match(r, u, d) {
        1int
    } else {
        0
    }) + rows_count(seq![r].skip(1), u, d));
}

/// The requirements `fold_rows` places on the ledger pieces it reads:
/// sorted indices and rows, and every checkpoint pointing at an existing
/// index it does not exceed.
pub open spec fn fold_pre(gi: Seq<IndexEntry>, ur: Seq<RewardInfo>) -> bool {
    &&& crate::coins::sorted_coins(gi_views(gi))
    &&& sorted_rows(row_views(ur))
    &&& forall|j: int|
        0 <= j < ur.len() ==> has_in(gi, (#[trigger] ur[j]).denom@) && ur[j].last_index.num()
            <= amount_of(gi_views(gi), ur[j].denom@)
}

/// Catches account `u`'s checkpoints up with every global index.
///
/// Returns the replacement checkpoint list and the folded coin list (the
/// amounts owed per denom, ascending, zeros dropped). The stored amounts
/// are zeroed when `withdraw` is set, and rows whose stored amount and
/// final weight are both zero are pruned. Nothing is mutated; on
/// overflow (`Err`) the caller keeps the old rows.
#[allow(unused_variables)]
#[verifier::rlimit(100)]
#[verifier::spinoff_prover]
pub(crate) fn fold_rows(
    gi: &Vec<IndexEntry>,
    ur: &Vec<RewardInfo>,
    user: &String,
    cur_w: u128,
    new_w: u128,
    withdraw: bool,
) -> (r: Result<(Vec<RewardInfo>, Vec<Coin>), RewardsError>)
    requires
        fold_pre(gi@, ur@),
    ensures
        match r {
            Ok((nur, coins)) => {
                &&& fold_fits(gi@, row_views(ur@), user@, cur_w as int)
                &&& views(coins@) == fold_coins(gi@, row_views(ur@), user@, cur_w as int)
                &&& crate::coins::wf_coins(views(coins@))
                &&& sorted_rows(row_views(nur@))
                &&& forall|d: Seq<char>|
                    has_in(gi@, d) ==> #[trigger] rows_count(row_views(nur@), user@, d) == (
                    if keep_row(
                        gi@,
                        row_views(ur@),
                        user@,
                        cur_w as int,
                        new_w as int,
                        withdraw,
                        d,
                    ) {
                        1int
                    } else {
                        0
                    })
                &&& forall|d: Seq<char>|
                    has_in(gi@, d) ==> #[trigger] rows_accrued(row_views(nur@), user@, d) == (
                    if keep_row(
                        gi@,
                        row_views(ur@),
                        user@,
                        cur_w as int,
                        new_w as int,
                        withdraw,
                        d,
                    ) && !withdraw {
                        facc(gi@, row_views(ur@), user@, cur_w as int, d)
                    } else {
                        0
                    })
                &&& forall|d: Seq<char>|
                    has_in(gi@, d) ==> #[trigger] rows_last(row_views(nur@), user@, d) == (
                    if keep_row(
                        gi@,
                        row_views(ur@),
                        user@,
                        cur_w as int,
                        new_w as int,
                        withdraw,
                        d,
                    ) {
                        amount_of(gi_views(gi@), d)
                    } else {
                        0
                    })
                &&& forall|d: Seq<char>|
                    !has_in(gi@, d) ==> #[trigger] rows_count(row_views(nur@), user@, d) == 0
                        && rows_accrued(row_views(nur@), user@, d) == 0 && rows_last(
                        row_views(nur@),
                        user@,
                        d,
                    ) == 0
                &&& forall|v: Seq<char>, d: Seq<char>|
                    v != user@ ==> #[trigger] rows_count(row_views(nur@), v, d) == rows_count(
                        row_views(ur@),
                        v,
                        d,
                    ) && rows_accrued(row_views(nur@), v, d) == rows_accrued(row_views(ur@), v, d)
                        && rows_last(row_views(nur@), v, d) == rows_last(row_views(ur@), v, d)
                &&& forall|j: int|
                    0 <= j < nur@.len() ==> has_in(gi@, (#[trigger] nur@[j]).denom@)
                        && nur@[j].last_index.num() <= amount_of(gi_views(gi@), nur@[j].denom@)
                &&& forall|j: int|
                    0 <= j < nur@.len() && (#[trigger] nur@[j]).user@ == user@ ==> (nur@[j].accrued
                        > 0 || new_w > 0)
                &&& forall|j: int|
                    0 <= j < nur@.len() && (#[trigger] nur@[j]).user@ != user@ ==> exists|k: int|
                        0 <= k < ur@.len() && ur@[k]@ == nur@[j]@
            },
            Err(e) => {
                &&& e == RewardsError::Overflow
                &&& !fold_fits(gi@, row_views(ur@), user@, cur_w as int)
            },
        },
{
    let ghost rows = row_views(ur@);
    let ghost u = user@;
    let ghost w = cur_w as int;

    // locate the contiguous run of this account's rows
    let mut lo: usize = 0;
    while lo < ur.len() && str_lt(ur[lo].user.as_str(), user.as_str())
        invariant
            u == user@,
            lo <= ur@.len(),
            rows == row_views(ur@),
            fold_pre(gi@, ur@),
            forall|k: int| 0 <= k < lo ==> lex_lt((#[trigger] rows[k]).user, u),
        decreases ur@.len() - lo,
    {
        proof {
            assert(rows[lo as int].user == ur@[lo as int].user@);
        }
        lo = lo + 1;
    }
    let mut hi: usize = lo;
    while hi < ur.len() && str_eq(ur[hi].user.as_str(), user.as_str())
        invariant
            u == user@,
            lo <= hi <= ur@.len(),
            rows == row_views(ur@),
            fold_pre(gi@, ur@),
            forall|k: int| 0 <= k < lo ==> lex_lt((#[trigger] rows[k]).user, u),
            forall|k: int| lo <= k < hi ==> (#[trigger] rows[k]).user == u,
        decreases ur@.len() - hi,
    {
        proof {
            assert(rows[hi as int].user == ur@[hi as int].user@);
        }
        hi = hi + 1;
    }
    proof {
        if hi < ur@.len() {
            if hi == lo {
                lemma_lex_lt_connected(rows[lo as int].user, u);
            } else {
                assert(row_key_lt(rows[hi - 1], rows[hi as int]));
                lemma_lex_lt_connected(u, rows[hi as int].user);
            }
        }
        assert forall|k: int| hi <= k < rows.len() implies lex_lt(u, (#[trigger] rows[k]).user) by {
            assert(rows[hi as int].user != u);
            if hi == lo {
                lemma_lex_lt_connected(rows[lo as int].user, u);
            } else {
                assert(row_key_lt(rows[hi - 1], rows[hi as int]));
                lemma_lex_lt_connected(u, rows[hi as int].user);
            }
            if k > hi {
                assert(row_key_lt(rows[hi as int], rows[k]));
                if rows[k].user != rows[hi as int].user {
                    lemma_lex_lt_transitive(u, rows[hi as int].user, rows[k].user);
                }
            }
        }
    }

    // fold each indexed denom, building the account's new block in place
    let mut out: Vec<RewardInfo> = Vec::new();
    let mut p: usize = 0;
    while p < lo
        invariant
            p <= lo <= ur@.len(),
            rows == row_views(ur@),
            fold_pre(gi@, ur@),
            out@.len() == p,
            forall|k: int| 0 <= k < p ==> (#[trigger] out@[k])@ == rows[k],
        decreases lo - p,
    {
        let c = ur[p].clone();
        out.push(c);
        p = p + 1;
    }
    proof {
        assert(row_views(out@) =~= rows.take(lo as int));
    }

    let mut coins: Vec<Coin> = Vec::new();
    let mut i: usize = 0;
    proof {
        assert(gi@.take(0) =~= Seq::<IndexEntry>::empty());
        assert(views(coins@) =~= fold_coins_rec(gi@.take(0), gi@, rows, u, w));
        assert forall|d: Seq<char>| true implies #[trigger] rows_count(row_views(out@), u, d) == 0
            && rows_accrued(row_views(out@), u, d) == 0 && rows_last(row_views(out@), u, d)
            == 0 by {
            assert forall|kk: int| 0 <= kk < row_views(out@).len() implies !row_match(
                #[trigger] row_views(out@)[kk],
                u,
                d,
            ) by {
                assert(row_views(out@)[kk] == rows[kk]);
                lemma_lex_lt_connected(rows[kk].user, u);
            }
            lemma_rows_absent(row_views(out@), u, d);
        }
    }
    while i < gi.len()
        invariant
            i <= gi@.len(),
            lo <= hi <= ur@.len(),
            rows == row_views(ur@),
            fold_pre(gi@, ur@),
            forall|k: int| 0 <= k < lo ==> lex_lt((#[trigger] rows[k]).user, u),
            forall|k: int| lo <= k < hi ==> (#[trigger] rows[k]).user == u,
            forall|k: int| hi <= k < rows.len() ==> lex_lt(u, (#[trigger] rows[k]).user),
            u == user@,
            w == cur_w as int,
            // the output so far: the untouched prefix plus this account's new block
            out@.len() >= lo,
            row_views(out@).take(lo as int) == rows.take(lo as int),
            sorted_rows(row_views(out@)),
            forall|j: int|
                lo <= j < out@.len() ==> (#[trigger] row_views(out@)[j]).user == u,
            forall|j: int|
                lo <= j < out@.len() && i < gi@.len() ==> lex_lt(
                    (#[trigger] row_views(out@)[j]).denom,
                    gi@[i as int].denom@,
                ),
            // per-denom content of the block
            forall|d: Seq<char>|
                has_in(gi@.take(i as int), d) ==> #[trigger] rows_count(row_views(out@), u, d) == (
                if keep_row(gi@, rows, u, w, new_w as int, withdraw, d) {
                    1int
                } else {
                    0
                }),
            forall|d: Seq<char>|
                has_in(gi@.take(i as int), d) ==> #[trigger] rows_accrued(row_views(out@), u, d)
                    == (if keep_row(gi@, rows, u, w, new_w as int, withdraw, d) && !withdraw {
                    facc(gi@, rows, u, w, d)
                } else {
                    0
                }),
            forall|d: Seq<char>|
                has_in(gi@.take(i as int), d) ==> #[trigger] rows_last(row_views(out@), u, d) == (
                if keep_row(gi@, rows, u, w, new_w as int, withdraw, d) {
                    amount_of(gi_views(gi@), d)
                } else {
                    0
                }),
            forall|d: Seq<char>|
                !has_in(gi@.take(i as int), d) ==> #[trigger] rows_count(row_views(out@), u, d)
                    == 0 && rows_accrued(row_views(out@), u, d) == 0 && rows_last(
                    row_views(out@),
                    u,
                    d,
                ) == 0,
            forall|v: Seq<char>, d: Seq<char>|
                v != u ==> #[trigger] rows_count(row_views(out@), v, d) == rows_count(
                    rows.take(lo as int),
                    v,
                    d,
                ) && rows_accrued(row_views(out@), v, d) == rows_accrued(rows.take(lo as int), v, d)
                    && rows_last(row_views(out@), v, d) == rows_last(rows.take(lo as int), v, d),
            // row-indexed facts carried for the invariant proof
            forall|j: int|
                0 <= j < out@.len() ==> has_in(gi@, (#[trigger] out@[j]).denom@)
                    && out@[j].last_index.num() <= amount_of(gi_views(gi@), out@[j].denom@),
            forall|j: int|
                lo <= j < out@.len() ==> ((#[trigger] out@[j]).accrued > 0 || new_w > 0),
            forall|j: int| 0 <= j < lo ==> (#[trigger] out@[j])@ == rows[j],
            // the coins and fits facts
            views(coins@) == fold_coins_rec(gi@.take(i as int), gi@, rows, u, w),
            crate::coins::wf_coins(views(coins@)),
            forall|x: int|
                0 <= x < coins@.len() && i < gi@.len() ==> lex_lt(
                    (#[trigger] views(coins@)[x]).denom,
                    gi@[i as int].denom@,
                ),
            forall|k: int|
                0 <= k < i ==> #[trigger] facc(gi@, rows, u, w, gi@[k].denom@) <= u128::MAX,
        decreases gi@.len() - i,
    {
        let e_denom_s = gi[i].denom.clone();
        let e_index = gi[i].index;
        proof {
            lemma_gi_found(gi@, i as int);
            assert(amount_of(gi_views(gi@), gi@[i as int].denom@) == e_index.num());
        }
        // look the existing checkpoint up inside the account's old block
        let mut k: usize = lo;
        let mut found: bool = false;
        let mut acc0: u128 = 0;
        let mut last0: RewardIndex = RewardIndex::zero();
        while k < hi && !found
            invariant
                lo <= k <= hi <= ur@.len(),
                rows == row_views(ur@),
                fold_pre(gi@, ur@),
                u == user@,
                forall|kk: int| lo <= kk < hi ==> (#[trigger] rows[kk]).user == u,
                e_denom_s@ == gi@[i as int].denom@,
                i < gi@.len(),
                !found ==> forall|kk: int|
                    lo <= kk < k ==> (#[trigger] rows[kk]).denom != e_denom_s@,
                found ==> exists|kk: int|
                    lo <= kk < hi && (#[trigger] rows[kk]).denom == e_denom_s@ && acc0
                        == rows[kk].accrued && last0.num() == rows[kk].last,
                !found ==> acc0 == 0 && last0.num() == 0,
            decreases hi - k, (if found {
                0int
            } else {
                1int
            }),
        {
            if str_eq(ur[k].denom.as_str(), e_denom_s.as_str()) {
                acc0 = ur[k].accrued;
                last0 = ur[k].last_index;
                found = true;
                proof {
                    assert(rows[k as int].denom == e_denom_s@ && acc0 == rows[k as int].accrued
                        && last0.num() == rows[k as int].last);
                }
            } else {
                proof {
                    assert(rows[k as int].denom == ur@[k as int].denom@);
                }
                k = k + 1;
            }
        }
        let ghost d = gi@[i as int].denom@;
        proof {
            if found {
                let kk = choose|kk: int|
                    lo <= kk < hi && (#[trigger] rows[kk]).denom == e_denom_s@ && acc0
                        == rows[kk].accrued && last0.num() == rows[kk].last;
                lemma_rows_found(rows, kk);
                assert(rows_accrued(rows, u, d) == acc0);
                assert(rows_last(rows, u, d) == last0.num());
                assert(ur@[kk].last_index.num() <= amount_of(gi_views(gi@), ur@[kk].denom@));
                assert(last0.num() <= e_index.num());
            } else {
                assert forall|kk: int| 0 <= kk < rows.len() implies !row_match(
                    #[trigger] rows[kk],
                    u,
                    d,
                ) by {
                    if kk < lo {
                        lemma_lex_lt_connected(rows[kk].user, u);
                    } else if kk < hi {
                    } else {
                        lemma_lex_lt_connected(u, rows[kk].user);
                    }
                }
                lemma_rows_absent(rows, u, d);
                crate::index::lemma_index_in_range(e_index);
            }
            assert(rows_accrued(rows, u, d) == acc0);
            assert(rows_last(rows, u, d) == last0.num());
            assert(last0.num() <= e_index.num());
        }
        let delta = e_index.checked_sub(&last0);
        let term = match mul_floor_index(cur_w, &delta) {
            Some(t) => t,
            None => {
                proof {
                    assert(facc(gi@, rows, u, w, d) > u128::MAX);
                    assert(has_in(gi@, d));
                    assert(!fold_fits(gi@, rows, u, w));
                }
                return Err(RewardsError::Overflow);
            },
        };
        if acc0 > u128::MAX - term {
            proof {
                assert(facc(gi@, rows, u, w, d) > u128::MAX);
                assert(has_in(gi@, d));
                assert(!fold_fits(gi@, rows, u, w));
            }
            return Err(RewardsError::Overflow);
        }
        let new_accrued = acc0 + term;
        proof {
            assert(facc(gi@, rows, u, w, d) == new_accrued);
        }
        let ghost coins_pre = views(coins@);
        if new_accrued > 0 {
            coins.push(Coin { denom: e_denom_s.clone(), amount: new_accrued });
            proof {
                assert(views(coins@) =~= coins_pre.push(
                    CoinV { denom: d, amount: new_accrued as int },
                ));
                assert forall|a: int, b: int| 0 <= a < b < views(coins@).len() implies lex_lt(
                    (#[trigger] views(coins@)[a]).denom,
                    (#[trigger] views(coins@)[b]).denom,
                ) by {
                    if b == views(coins@).len() - 1 {
                        assert(lex_lt(coins_pre[a].denom, d));
                    }
                }
            }
        }
        proof {
            if i + 1 < gi@.len() {
                assert forall|x: int| 0 <= x < coins@.len() implies lex_lt(
                    (#[trigger] views(coins@)[x]).denom,
                    gi@[i + 1].denom@,
                ) by {
                    assert(lex_lt(gi_views(gi@)[i as int].denom, gi_views(gi@)[i + 1].denom));
                    if x < coins_pre.len() {
                        assert(lex_lt(coins_pre[x].denom, d));
                        lemma_lex_lt_transitive(coins_pre[x].denom, d, gi@[i + 1].denom@);
                    }
                }
            }
        }
        proof {
            assert(gi@.take(i + 1) =~= gi@.take(i as int).push(gi@[i as int]));
            lemma_fold_rec_snoc(gi@.take(i as int), gi@[i as int], gi@, rows, u, w);
            if new_accrued > 0 {
                assert(views(coins@) =~= fold_coins_rec(gi@.take(i + 1), gi@, rows, u, w));
            } else {
                assert(views(coins@) =~= fold_coins_rec(gi@.take(i + 1), gi@, rows, u, w));
            }
        }
        let stored: u128 = if withdraw {
            0
        } else {
            new_accrued
        };
        let ghost out_pre = row_views(out@);
        let keep = new_w > 0 || stored > 0;
        if keep {
            let row = RewardInfo {
                user: user.clone(),
                denom: e_denom_s,
                accrued: stored,
                last_index: e_index,
            };
            out.push(row);
            proof {
                assert(row_views(out@) =~= out_pre.push(row@));
            }
        }
        proof {
            let r_new = RowV { user: u, denom: d, accrued: stored as int, last: e_index.num() };
            assert(keep == keep_row(gi@, rows, u, w, new_w as int, withdraw, d));
            if keep {
                assert(row_views(out@) =~= out_pre.push(r_new));
            }
            // what the push changed, sum by sum
            assert forall|dd: Seq<char>| true implies #[trigger] rows_count(row_views(out@), u, dd)
                == rows_count(out_pre, u, dd) + (if keep && dd == d {
                1int
            } else {
                0
            }) by {
                if keep {
                    lemma_rows_snoc(out_pre, r_new, u, dd);
                }
            }
            assert forall|dd: Seq<char>| true implies #[trigger] rows_accrued(
                row_views(out@),
                u,
                dd,
            ) == rows_accrued(out_pre, u, dd) + (if keep && dd == d {
                stored as int
            } else {
                0
            }) by {
                if keep {
                    lemma_rows_snoc(out_pre, r_new, u, dd);
                }
            }
            assert forall|dd: Seq<char>| true implies #[trigger] rows_last(row_views(out@), u, dd)
                == rows_last(out_pre, u, dd) + (if keep && dd == d {
                e_index.num()
            } else {
                0
            }) by {
                if keep {
                    lemma_rows_snoc(out_pre, r_new, u, dd);
                }
            }
            // other accounts: nothing changed
            assert forall|v: Seq<char>, dd: Seq<char>| v != u implies #[trigger] rows_count(
                row_views(out@),
                v,
                dd,
            ) == rows_count(rows.take(lo as int), v, dd) && rows_accrued(row_views(out@), v, dd)
                == rows_accrued(rows.take(lo as int), v, dd) && rows_last(row_views(out@), v, dd)
                == rows_last(rows.take(lo as int), v, dd) by {
                assert(rows_count(out_pre, v, dd) == rows_count(rows.take(lo as int), v, dd));
                assert(rows_accrued(out_pre, v, dd) == rows_accrued(rows.take(lo as int), v, dd));
                assert(rows_last(out_pre, v, dd) == rows_last(rows.take(lo as int), v, dd));
                if keep {
                    lemma_rows_snoc(out_pre, r_new, v, dd);
                }
            }
            // the block stays sorted
            if keep {
                assert forall|a: int, b: int| 0 <= a < b < row_views(out@).len() implies row_key_lt(
                    row_views(out@)[a],
                    row_views(out@)[b],
                ) by {
                    if b == row_views(out@).len() - 1 {
                        assert(row_views(out@)[a] == out_pre[a]);
                        assert(row_views(out@)[b] == r_new);
                        if a < lo {
                            assert(out_pre[a] == rows.take(lo as int)[a]);
                            assert(out_pre[a] == rows[a]);
                            assert(lex_lt(out_pre[a].user, u));
                        } else {
                            assert(out_pre[a].user == u);
                            assert(lex_lt(out_pre[a].denom, d));
                        }
                    } else {
                        assert(row_views(out@)[a] == out_pre[a]);
                        assert(row_views(out@)[b] == out_pre[b]);
                    }
                }
            }
            assert forall|dd: Seq<char>| has_in(gi@.take(i + 1), dd) implies (#[trigger] rows_count(
                row_views(out@),
                u,
                dd,
            ) == (if keep_row(gi@, rows, u, w, new_w as int, withdraw, dd) {
                1int
            } else {
                0
            })) by {
                let kk = choose|kk: int|
                    0 <= kk < gi@.take(i + 1).len() && (#[trigger] gi@.take(i + 1)[kk]).denom@
                        == dd;
                if kk < i {
                    assert(has_in(gi@.take(i as int), dd)) by {
                        assert(gi@.take(i as int)[kk].denom@ == dd);
                    }
                    assert(dd != d) by {
                        assert(lex_lt(gi_views(gi@)[kk].denom, gi_views(gi@)[i as int].denom));
                        lemma_lex_lt_connected(dd, d);
                    }
                    assert(rows_count(out_pre, u, dd) == (if keep_row(
                        gi@,
                        rows,
                        u,
                        w,
                        new_w as int,
                        withdraw,
                        dd,
                    ) {
                        1int
                    } else {
                        0
                    }));
                    assert(rows_accrued(out_pre, u, dd) == (if keep_row(
                        gi@,
                        rows,
                        u,
                        w,
                        new_w as int,
                        withdraw,
                        dd,
                    ) && !withdraw {
                        facc(gi@, rows, u, w, dd)
                    } else {
                        0
                    }));
                    assert(rows_last(out_pre, u, dd) == (if keep_row(
                        gi@,
                        rows,
                        u,
                        w,
                        new_w as int,
                        withdraw,
                        dd,
                    ) {
                        amount_of(gi_views(gi@), dd)
                    } else {
                        0
                    }));
                } else {
                    assert(dd == d);
                    assert(!has_in(gi@.take(i as int), dd)) by {
                        if has_in(gi@.take(i as int), dd) {
                            let jj = choose|jj: int|
                                0 <= jj < gi@.take(i as int).len() && (#[trigger] gi@.take(
                                    i as int,
                                )[jj]).denom@ == dd;
                            assert(lex_lt(gi_views(gi@)[jj].denom, gi_views(gi@)[i as int].denom));
                            lemma_lex_lt_connected(dd, d);
                        }
                    }
                    assert(rows_count(out_pre, u, dd) == 0);
                    assert(rows_accrued(out_pre, u, dd) == 0);
                    assert(rows_last(out_pre, u, dd) == 0);
                }
            }
            assert forall|dd: Seq<char>| has_in(gi@.take(i + 1), dd) implies (
            #[trigger] rows_accrued(row_views(out@), u, dd) == (if keep_row(
                gi@,
                rows,
                u,
                w,
                new_w as int,
                withdraw,
                dd,
            ) && !withdraw {
                facc(gi@, rows, u, w, dd)
            } else {
                0
            })) by {
                let kk = choose|kk: int|
                    0 <= kk < gi@.take(i + 1).len() && (#[trigger] gi@.take(i + 1)[kk]).denom@
                        == dd;
                if kk < i {
                    assert(has_in(gi@.take(i as int), dd)) by {
                        assert(gi@.take(i as int)[kk].denom@ == dd);
                    }
                    assert(dd != d) by {
                        assert(lex_lt(gi_views(gi@)[kk].denom, gi_views(gi@)[i as int].denom));
                        lemma_lex_lt_connected(dd, d);
                    }
                    assert(rows_count(out_pre, u, dd) == (if keep_row(
                        gi@,
                        rows,
                        u,
                        w,
                        new_w as int,
                        withdraw,
                        dd,
                    ) {
                        1int
                    } else {
                        0
                    }));
                    assert(rows_accrued(out_pre, u, dd) == (if keep_row(
                        gi@,
                        rows,
                        u,
                        w,
                        new_w as int,
                        withdraw,
                        dd,
                    ) && !withdraw {
                        facc(gi@, rows, u, w, dd)
                    } else {
                        0
                    }));
                    assert(rows_last(out_pre, u, dd) == (if keep_row(
                        gi@,
                        rows,
                        u,
                        w,
                        new_w as int,
                        withdraw,
                        dd,
                    ) {
                        amount_of(gi_views(gi@), dd)
                    } else {
                        0
                    }));
                } else {
                    assert(dd == d);
                    assert(!has_in(gi@.take(i as int), dd)) by {
                        if has_in(gi@.take(i as int), dd) {
                            let jj = choose|jj: int|
                                0 <= jj < gi@.take(i as int).len() && (#[trigger] gi@.take(
                                    i as int,
                                )[jj]).denom@ == dd;
                            assert(lex_lt(gi_views(gi@)[jj].denom, gi_views(gi@)[i as int].denom));
                            lemma_lex_lt_connected(dd, d);
                        }
                    }
                    assert(rows_count(out_pre, u, dd) == 0);
                    assert(rows_accrued(out_pre, u, dd) == 0);
                    assert(rows_last(out_pre, u, dd) == 0);
                }
            }
            assert forall|dd: Seq<char>| has_in(gi@.take(i + 1), dd) implies (
            #[trigger] rows_last(row_views(out@), u, dd) == (if keep_row(
                gi@,
                rows,
                u,
                w,
                new_w as int,
                withdraw,
                dd,
            ) {
                amount_of(gi_views(gi@), dd)
            } else {
                0
            })) by {
                let kk = choose|kk: int|
                    0 <= kk < gi@.take(i + 1).len() && (#[trigger] gi@.take(i + 1)[kk]).denom@
                        == dd;
                if kk < i {
                    assert(has_in(gi@.take(i as int), dd)) by {
                        assert(gi@.take(i as int)[kk].denom@ == dd);
                    }
                    assert(dd != d) by {
                        assert(lex_lt(gi_views(gi@)[kk].denom, gi_views(gi@)[i as int].denom));
                        lemma_lex_lt_connected(dd, d);
                    }
                    assert(rows_count(out_pre, u, dd) == (if keep_row(
                        gi@,
                        rows,
                        u,
                        w,
                        new_w as int,
                        withdraw,
                        dd,
                    ) {
                        1int
                    } else {
                        0
                    }));
                    assert(rows_accrued(out_pre, u, dd) == (if keep_row(
                        gi@,
                        rows,
                        u,
                        w,
                        new_w as int,
                        withdraw,
                        dd,
                    ) && !withdraw {
                        facc(gi@, rows, u, w, dd)
                    } else {
                        0
                    }));
                    assert(rows_last(out_pre, u, dd) == (if keep_row(
                        gi@,
                        rows,
                        u,
                        w,
                        new_w as int,
                        withdraw,
                        dd,
                    ) {
                        amount_of(gi_views(gi@), dd)
                    } else {
                        0
                    }));
                } else {
                    assert(dd == d);
                    assert(!has_in(gi@.take(i as int), dd)) by {
                        if has_in(gi@.take(i as int), dd) {
                            let jj = choose|jj: int|
                                0 <= jj < gi@.take(i as int).len() && (#[trigger] gi@.take(
                                    i as int,
                                )[jj]).denom@ == dd;
                            assert(lex_lt(gi_views(gi@)[jj].denom, gi_views(gi@)[i as int].denom));
                            lemma_lex_lt_connected(dd, d);
                        }
                    }
                    assert(rows_count(out_pre, u, dd) == 0);
                    assert(rows_accrued(out_pre, u, dd) == 0);
                    assert(rows_last(out_pre, u, dd) == 0);
                }
            }
            assert forall|dd: Seq<char>| !has_in(gi@.take(i + 1), dd) implies (
            #[trigger] rows_count(row_views(out@), u, dd) == 0 && rows_accrued(
                row_views(out@),
                u,
                dd,
            ) == 0 && rows_last(row_views(out@), u, dd) == 0) by {
                assert(!has_in(gi@.take(i as int), dd)) by {
                    if has_in(gi@.take(i as int), dd) {
                        let jj = choose|jj: int|
                            0 <= jj < gi@.take(i as int).len() && (#[trigger] gi@.take(i as int)[jj]).denom@
                                == dd;
                        assert(gi@.take(i + 1)[jj].denom@ == dd);
                    }
                }
                assert(dd != d) by {
                    assert(gi@.take(i + 1)[i as int].denom@ == d);
                }
                assert(rows_count(out_pre, u, dd) == 0);
                assert(rows_accrued(out_pre, u, dd) == 0);
                assert(rows_last(out_pre, u, dd) == 0);
            }
            if i + 1 < gi@.len() {
                assert forall|j: int| lo <= j < out@.len() implies lex_lt(
                    (#[trigger] row_views(out@)[j]).denom,
                    gi@[i + 1].denom@,
                ) by {
                    assert(lex_lt(gi_views(gi@)[i as int].denom, gi_views(gi@)[i + 1].denom));
                    if j < out_pre.len() {
                        assert(lex_lt(out_pre[j].denom, d));
                        lemma_lex_lt_transitive(out_pre[j].denom, d, gi@[i + 1].denom@);
                    }
                }
            }
        }
        i = i + 1;
    }
    proof {
        assert(gi@.take(gi@.len() as int) =~= gi@);
        assert forall|dd: Seq<char>| has_in(gi@, dd) implies #[trigger] facc(gi@, rows, u, w, dd)
            <= u128::MAX by {
            let kk = choose|kk: int| 0 <= kk < gi@.len() && (#[trigger] gi@[kk]).denom@ == dd;
            assert(facc(gi@, rows, u, w, gi@[kk].denom@) <= u128::MAX);
        }
    }

    proof {
        assert forall|d: Seq<char>| true implies (#[trigger] has_in(gi@, d) <==> has_in(
            gi@.take(gi@.len() as int),
            d,
        )) by {
            if has_in(gi@, d) {
                let k = choose|k: int| 0 <= k < gi@.len() && (#[trigger] gi@[k]).denom@ == d;
                assert(gi@.take(gi@.len() as int)[k].denom@ == d);
            }
            if has_in(gi@.take(gi@.len() as int), d) {
                let k = choose|k: int|
                    0 <= k < gi@.take(gi@.len() as int).len() && (#[trigger] gi@.take(
                        gi@.len() as int,
                    )[k]).denom@ == d;
                assert(gi@[k].denom@ == d);
            }
        }
    }
    proof {
        assert forall|v: Seq<char>, dd: Seq<char>| v != user@ implies #[trigger] rows_count(
            row_views(out@),
            v,
            dd,
        ) == rows_count(row_views(ur@).take(lo as int), v, dd) && rows_accrued(
            row_views(out@),
            v,
            dd,
        ) == rows_accrued(row_views(ur@).take(lo as int), v, dd) && rows_last(
            row_views(out@),
            v,
            dd,
        ) == rows_last(row_views(ur@).take(lo as int), v, dd) by {
            assert(v != u);
            assert(rows_count(row_views(out@), v, dd) == rows_count(rows.take(lo as int), v, dd));
            assert(rows.take(lo as int) == row_views(ur@).take(lo as int));
        }
    }
    let out2 = attach_rest(gi, ur, user, cur_w, new_w, withdraw, lo, hi, out);
    Ok((out2, coins))
}

/// Re-attaches the rows of the accounts that sort after the folded one,
/// carrying every pointwise fact about the rebuilt block over to the
/// complete list.
#[verifier::rlimit(100)]
#[verifier::spinoff_prover]
#[allow(unused_variables)]
fn attach_rest(
    gi: &Vec<IndexEntry>,
    ur: &Vec<RewardInfo>,
    user: &String,
    cur_w: u128,
    new_w: u128,
    withdraw: bool,
    lo: usize,
    hi: usize,
    out: Vec<RewardInfo>,
) -> (nur: Vec<RewardInfo>)
    requires
        fold_pre(gi@, ur@),
        lo <= hi <= ur@.len(),
        forall|k: int| 0 <= k < lo ==> lex_lt((#[trigger] row_views(ur@)[k]).user, user@),
        forall|k: int| lo <= k < hi ==> (#[trigger] row_views(ur@)[k]).user == user@,
        forall|k: int|
            hi <= k < row_views(ur@).len() ==> lex_lt(user@, (#[trigger] row_views(ur@)[k]).user),
        out@.len() >= lo,
        row_views(out@).take(lo as int) == row_views(ur@).take(lo as int),
        sorted_rows(row_views(out@)),
        forall|j: int| lo <= j < out@.len() ==> (#[trigger] row_views(out@)[j]).user == user@,
        forall|d: Seq<char>|
            has_in(gi@, d) ==> #[trigger] rows_count(row_views(out@), user@, d) == (if keep_row(
                gi@,
                row_views(ur@),
                user@,
                cur_w as int,
                new_w as int,
                withdraw,
                d,
            ) {
                1int
            } else {
                0
            }),
        forall|d: Seq<char>|
            has_in(gi@, d) ==> #[trigger] rows_accrued(row_views(out@), user@, d) == (if keep_row(
                gi@,
                row_views(ur@),
                user@,
                cur_w as int,
                new_w as int,
                withdraw,
                d,
            ) && !withdraw {
                facc(gi@, row_views(ur@), user@, cur_w as int, d)
            } else {
                0
            }),
        forall|d: Seq<char>|
            has_in(gi@, d) ==> #[trigger] rows_last(row_views(out@), user@, d) == (if keep_row(
                gi@,
                row_views(ur@),
                user@,
                cur_w as int,
                new_w as int,
                withdraw,
                d,
            ) {
                amount_of(gi_views(gi@), d)
            } else {
                0
            }),
        forall|d: Seq<char>|
            !has_in(gi@, d) ==> #[trigger] rows_count(row_views(out@), user@, d) == 0
                && rows_accrued(row_views(out@), user@, d) == 0 && rows_last(
                row_views(out@),
                user@,
                d,
            ) == 0,
        forall|v: Seq<char>, d: Seq<char>|
            v != user@ ==> #[trigger] rows_count(row_views(out@), v, d) == rows_count(
                row_views(ur@).take(lo as int),
                v,
                d,
            ) && rows_accrued(row_views(out@), v, d) == rows_accrued(
                row_views(ur@).take(lo as int),
                v,
                d,
            ) && rows_last(row_views(out@), v, d) == rows_last(
                row_views(ur@).take(lo as int),
                v,
                d,
            ),
        forall|j: int|
            0 <= j < out@.len() ==> has_in(gi@, (#[trigger] out@[j]).denom@)
                && out@[j].last_index.num() <= amount_of(gi_views(gi@), out@[j].denom@),
        forall|j: int| lo <= j < out@.len() ==> ((#[trigger] out@[j]).accrued > 0 || new_w > 0),
        forall|j: int| 0 <= j < lo ==> (#[trigger] out@[j])@ == row_views(ur@)[j],
    ensures
        sorted_rows(row_views(nur@)),
        forall|d: Seq<char>|
            has_in(gi@, d) ==> #[trigger] rows_count(row_views(nur@), user@, d) == (if keep_row(
                gi@,
                row_views(ur@),
                user@,
                cur_w as int,
                new_w as int,
                withdraw,
                d,
            ) {
                1int
            } else {
                0
            }),
        forall|d: Seq<char>|
            has_in(gi@, d) ==> #[trigger] rows_accrued(row_views(nur@), user@, d) == (if keep_row(
                gi@,
                row_views(ur@),
                user@,
                cur_w as int,
                new_w as int,
                withdraw,
                d,
            ) && !withdraw {
                facc(gi@, row_views(ur@), user@, cur_w as int, d)
            } else {
                0
            }),
        forall|d: Seq<char>|
            has_in(gi@, d) ==> #[trigger] rows_last(row_views(nur@), user@, d) == (if keep_row(
                gi@,
                row_views(ur@),
                user@,
                cur_w as int,
                new_w as int,
                withdraw,
                d,
            ) {
                amount_of(gi_views(gi@), d)
            } else {
                0
            }),
        forall|d: Seq<char>|
            !has_in(gi@, d) ==> #[trigger] rows_count(row_views(nur@), user@, d) == 0
                && rows_accrued(row_views(nur@), user@, d) == 0 && rows_last(
                row_views(nur@),
                user@,
                d,
            ) == 0,
        forall|v: Seq<char>, d: Seq<char>|
            v != user@ ==> #[trigger] rows_count(row_views(nur@), v, d) == rows_count(
                row_views(ur@),
                v,
                d,
            ) && rows_accrued(row_views(nur@), v, d) == rows_accrued(row_views(ur@), v, d)
                && rows_last(row_views(nur@), v, d) == rows_last(row_views(ur@), v, d),
        forall|j: int|
            0 <= j < nur@.len() ==> has_in(gi@, (#[trigger] nur@[j]).denom@)
                && nur@[j].last_index.num() <= amount_of(gi_views(gi@), nur@[j].denom@),
        forall|j: int|
            0 <= j < nur@.len() && (#[trigger] nur@[j]).user@ == user@ ==> (nur@[j].accrued > 0
                || new_w > 0),
        forall|j: int|
            0 <= j < nur@.len() && (#[trigger] nur@[j]).user@ != user@ ==> exists|k: int|
                0 <= k < ur@.len() && ur@[k]@ == nur@[j]@,
{
    let ghost rows = row_views(ur@);
    let ghost u = user@;
    let ghost w = cur_w as int;
    let mut out = out;
    // re-attach the rows of the accounts that sort after this one
    let ghost mid = row_views(out@);
    proof {
        assert forall|j: int| 0 <= j < mid.len() implies has_in(gi@, (#[trigger] mid[j]).denom)
            && mid[j].last <= amount_of(gi_views(gi@), mid[j].denom) by {
            assert(mid[j] == out@[j]@);
            assert(has_in(gi@, out@[j].denom@));
        }
        assert forall|j: int| lo <= j < mid.len() implies ((#[trigger] mid[j]).accrued > 0 || new_w
            > 0) by {
            assert(mid[j] == out@[j]@);
        }
        assert forall|j: int| 0 <= j < lo implies (#[trigger] mid[j]) == rows[j] by {
            assert(mid[j] == out@[j]@);
        }
        assert(forall|j: int| lo <= j < mid.len() ==> (#[trigger] mid[j]).user == u);
        assert(sorted_rows(mid));
    }
    let mut q: usize = hi;
    while q < ur.len()
        invariant
            hi <= q <= ur@.len(),
            rows == row_views(ur@),
            fold_pre(gi@, ur@),
            u == user@,
            out@.len() == mid.len() + (q - hi),
            forall|j: int| 0 <= j < mid.len() ==> (#[trigger] out@[j])@ == mid[j],
            forall|j: int|
                mid.len() <= j < out@.len() ==> (#[trigger] out@[j])@ == rows[j - mid.len()
                    + hi] && out@[j].user@ == ur@[j - mid.len() + hi].user@ && out@[j].denom@
                    == ur@[j - mid.len() + hi].denom@ && out@[j].accrued == ur@[j - mid.len()
                    + hi].accrued && out@[j].last_index == ur@[j - mid.len() + hi].last_index,
        decreases ur@.len() - q,
    {
        let c = ur[q].clone();
        out.push(c);
        q = q + 1;
    }
    proof {
        let fin = row_views(out@);
        assert(fin =~= mid + rows.skip(hi as int));
        assert(forall|kk: int|
            0 <= kk < rows.skip(hi as int).len() ==> rows.skip(hi as int)[kk] == rows[kk
                + hi]);
        // the whole list is sorted again
        assert forall|a: int, b: int| 0 <= a < b < fin.len() implies row_key_lt(
            fin[a],
            fin[b],
        ) by {
            if b < mid.len() {
            } else if a >= mid.len() {
                assert(fin[a] == rows[a - mid.len() + hi]);
                assert(fin[b] == rows[b - mid.len() + hi]);
            } else {
                let rb = rows[b - mid.len() + hi];
                assert(lex_lt(u, rb.user));
                if a < lo {
                    assert(fin[a] == rows[a]);
                    assert(lex_lt(rows[a].user, u));
                    lemma_lex_lt_transitive(rows[a].user, u, rb.user);
                } else {
                    assert(fin[a].user == u);
                }
            }
        }
        // sums for this account come from the rebuilt block alone
        assert forall|dd: Seq<char>| true implies #[trigger] rows_count(fin, u, dd) == rows_count(
            mid,
            u,
            dd,
        ) by {
            lemma_rows_concat(mid, rows.skip(hi as int), u, dd);
            assert forall|kk: int| 0 <= kk < rows.skip(hi as int).len() implies !row_match(
                #[trigger] rows.skip(hi as int)[kk],
                u,
                dd,
            ) by {
                lemma_lex_lt_connected(u, rows[kk + hi].user);
            }
            lemma_rows_absent(rows.skip(hi as int), u, dd);
        }
        assert forall|dd: Seq<char>| true implies #[trigger] rows_accrued(fin, u, dd)
            == rows_accrued(mid, u, dd) by {
            lemma_rows_concat(mid, rows.skip(hi as int), u, dd);
            assert forall|kk: int| 0 <= kk < rows.skip(hi as int).len() implies !row_match(
                #[trigger] rows.skip(hi as int)[kk],
                u,
                dd,
            ) by {
                lemma_lex_lt_connected(u, rows[kk + hi].user);
            }
            lemma_rows_absent(rows.skip(hi as int), u, dd);
        }
        assert forall|dd: Seq<char>| true implies #[trigger] rows_last(fin, u, dd) == rows_last(
            mid,
            u,
            dd,
        ) by {
            lemma_rows_concat(mid, rows.skip(hi as int), u, dd);
            assert forall|kk: int| 0 <= kk < rows.skip(hi as int).len() implies !row_match(
                #[trigger] rows.skip(hi as int)[kk],
                u,
                dd,
            ) by {
                lemma_lex_lt_connected(u, rows[kk + hi].user);
            }
            lemma_rows_absent(rows.skip(hi as int), u, dd);
        }
        // other accounts keep their sums
        assert forall|v: Seq<char>, dd: Seq<char>| v != u implies #[trigger] rows_count(fin, v, dd)
            == rows_count(rows, v, dd) && rows_accrued(fin, v, dd) == rows_accrued(rows, v, dd)
            && rows_last(fin, v, dd) == rows_last(rows, v, dd) by {
            lemma_rows_concat(mid, rows.skip(hi as int), v, dd);
            assert(rows =~= rows.take(lo as int) + rows.subrange(lo as int, hi as int) + rows.skip(
                hi as int,
            ));
            lemma_rows_concat(
                rows.take(lo as int) + rows.subrange(lo as int, hi as int),
                rows.skip(hi as int),
                v,
                dd,
            );
            lemma_rows_concat(rows.take(lo as int), rows.subrange(lo as int, hi as int), v, dd);
            assert forall|kk: int| 0 <= kk < rows.subrange(lo as int, hi as int).len() implies
                !row_match(#[trigger] rows.subrange(lo as int, hi as int)[kk], v, dd) by {
                assert(rows.subrange(lo as int, hi as int)[kk] == rows[kk + lo]);
            }
            lemma_rows_absent(rows.subrange(lo as int, hi as int), v, dd);
        }
        // per-row facts transfer to the suffix
        assert forall|j: int| 0 <= j < out@.len() implies has_in(
            gi@,
            (#[trigger] out@[j]).denom@,
        ) && out@[j].last_index.num() <= amount_of(gi_views(gi@), out@[j].denom@) by {
            if j >= mid.len() {
                let idx = j - mid.len() + hi;
                assert(out@[j].denom@ == ur@[idx].denom@);
                assert(out@[j].last_index == ur@[idx].last_index);
                assert(has_in(gi@, ur@[idx].denom@));
            } else {
                assert(fin[j] == mid[j]);
                assert(out@[j]@ == mid[j]);
                assert(out@[j].denom@ == mid[j].denom);
                assert(out@[j].last_index.num() == mid[j].last);
                assert(has_in(gi@, mid[j].denom));
            }
        }
        assert forall|j: int| 0 <= j < out@.len() && (#[trigger] out@[j]).user@ == u implies (
        out@[j].accrued > 0 || new_w > 0) by {
            if j >= mid.len() {
                let idx = j - mid.len() + hi;
                assert(out@[j].user@ == ur@[idx].user@);
                assert(row_views(ur@)[idx].user == u);
                assert(lex_lt(u, rows[idx].user));
                crate::denoms::lemma_lex_lt_irreflexive(u);
            } else if j >= lo {
                assert(out@[j]@ == mid[j]);
                assert(out@[j].accrued == mid[j].accrued);
            } else {
                assert(fin[j] == mid[j]);
                assert(out@[j]@ == mid[j]);
                assert(mid[j] == rows[j]);
                assert(lex_lt(rows[j].user, u));
                crate::denoms::lemma_lex_lt_irreflexive(u);
            }
        }
        assert forall|j: int| 0 <= j < out@.len() && (#[trigger] out@[j]).user@ != u implies exists|
            k: int,
        | 0 <= k < ur@.len() && ur@[k]@ == out@[j]@ by {
            if j < lo {
                assert(fin[j] == rows[j]);
                assert(ur@[j]@ == out@[j]@);
            } else if j < mid.len() {
                assert(fin[j].user == u);
            } else {
                let idx = j - mid.len() + hi;
                assert(ur@[idx]@ == out@[j]@);
            }
        }
    }
    out

}

} // verus!
