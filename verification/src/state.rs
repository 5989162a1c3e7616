use vstd::prelude::*;
use crate::coins::{amount_of, sorted_coins, wf_coins, CoinV};
use crate::denoms::{lex_lt, lemma_lex_lt_connected};
use crate::index::{RewardIndex, limb_base, index_bound, lemma_index_in_range};

verus! {

/// The running reward index of one denomination.
pub struct IndexEntry {
    pub denom: String,
    pub index: RewardIndex,
}

/// The staked weight of one account.
pub struct WeightEntry {
    pub user: String,
    pub amount: u128,
}

/// One account's checkpoint against one denomination: the rewards already
/// folded in, and the index value at which they were last folded.
pub struct RewardInfo {
    pub user: String,
    pub denom: String,
    pub accrued: u128,
    pub last_index: RewardIndex,
}

/// The mathematical content of a [`RewardInfo`].
pub struct RowV {
    pub user: Seq<char>,
    pub denom: Seq<char>,
    pub accrued: int,
    pub last: int,
}

impl View for RewardInfo {
    type V = RowV;

    open spec fn view(&self) -> RowV {
        RowV {
            user: self.user@,
            denom: self.denom@,
            accrued: self.accrued as int,
            last: self.last_index.num(),
        }
    }
}

/// Index entries seen as (denom, numerator) pairs, so that the coin-list
/// algebra applies to them.
pub open spec fn gi_views(s: Seq<IndexEntry>) -> Seq<CoinV> {
    s.map_values(|e: IndexEntry| CoinV { denom: e.denom@, amount: e.index.num() })
}

/// Weight entries seen as (user, amount) pairs.
pub open spec fn w_views(s: Seq<WeightEntry>) -> Seq<CoinV> {
    s.map_values(|e: WeightEntry| CoinV { denom: e.user@, amount: e.amount as int })
}

pub open spec fn row_views(s: Seq<RewardInfo>) -> Seq<RowV> {
    s.map_values(|r: RewardInfo| r@)
}

/// Strict order on checkpoint keys: by user, then by denom.
pub open spec fn row_key_lt(a: RowV, b: RowV) -> bool {
    lex_lt(a.user, b.user) || (a.user == b.user && lex_lt(a.denom, b.denom))
}

pub open spec fn sorted_rows(s: Seq<RowV>) -> bool {
    forall|i: int, j: int| 0 <= i < j < s.len() ==> row_key_lt(s[i], s[j])
}

pub open spec fn row_match(r: RowV, u: Seq<char>, d: Seq<char>) -> bool {
    r.user == u && r.denom == d
}

/// Sum of folded rewards over rows keyed `(u, d)`. Under `sorted_rows`
/// there is at most one such row, so this is that row's value (or 0).
pub open spec fn rows_accrued(s: Seq<RowV>, u: Seq<char>, d: Seq<char>) -> int
    decreases s.len(),
{
    if s.len() == 0 {
        0
    } else {
        (if row_match(s[0], u, d) {
            s[0].accrued
        } else {
            0
        }) + rows_accrued(s.skip(1), u, d)
    }
}

/// Sum of checkpoint index numerators over rows keyed `(u, d)`.
pub open spec fn rows_last(s: Seq<RowV>, u: Seq<char>, d: Seq<char>) -> int
    decreases s.len(),
{
    if s.len() == 0 {
        0
    } else {
        (if row_match(s[0], u, d) {
            s[0].last
        } else {
            0
        }) + rows_last(s.skip(1), u, d)
    }
}

/// Number of rows keyed `(u, d)`.
pub open spec fn rows_count(s: Seq<RowV>, u: Seq<char>, d: Seq<char>) -> int
    decreases s.len(),
{
    if s.len() == 0 {
        0
    } else {
        (if row_match(s[0], u, d) {
            1int
        } else {
            0
        }) + rows_count(s.skip(1), u, d)
    }
}

#[verifier::spinoff_prover]
pub proof fn lemma_rows_concat(a: Seq<RowV>, b: Seq<RowV>, u: Seq<char>, d: Seq<char>)
    ensures
        rows_accrued(a + b, u, d) == rows_accrued(a, u, d) + rows_accrued(b, u, d),
        rows_last(a + b, u, d) == rows_last(a, u, d) + rows_last(b, u, d),
        rows_count(a + b, u, d) == rows_count(a, u, d) + rows_count(b, u, d),
    decreases a.len(),
{
    if a.len() == 0 {
        assert(a + b =~= b);
    } else {
        assert((a + b)[0] == a[0]);
        assert((a + b).skip(1) =~= a.skip(1) + b);
        lemma_rows_concat(a.skip(1), b, u, d);
    }
}

#[verifier::spinoff_prover]
pub proof fn lemma_rows_absent(s: Seq<RowV>, u: Seq<char>, d: Seq<char>)
    requires
        forall|i: int| 0 <= i < s.len() ==> !row_match(s[i], u, d),
    ensures
        rows_accrued(s, u, d) == 0,
        rows_last(s, u, d) == 0,
        rows_count(s, u, d) == 0,
    decreases s.len(),
{
    if s.len() > 0 {
        assert(forall|i: int| 0 <= i < s.skip(1).len() ==> s.skip(1)[i] == s[i + 1]);
        lemma_rows_absent(s.skip(1), u, d);
    }
}

/// In a sorted row list, the row at `i` carries the whole sums of its key.
#[verifier::spinoff_prover]
pub proof fn lemma_rows_found(s: Seq<RowV>, i: int)
    requires
        sorted_rows(s),
        0 <= i < s.len(),
    ensures
        rows_accrued(s, s[i].user, s[i].denom) == s[i].accrued,
        rows_last(s, s[i].user, s[i].denom) == s[i].last,
        rows_count(s, s[i].user, s[i].denom) == 1,
{
    let u = s[i].user;
    let d = s[i].denom;
    assert(s =~= s.take(i) + seq![s[i]] + s.skip(i + 1));
    assert forall|j: int| 0 <= j < s.take(i).len() implies !row_match(s.take(i)[j], u, d) by {
        assert(s.take(i)[j] == s[j]);
        assert(row_key_lt(s[j], s[i]));
        lemma_lex_lt_connected(s[j].user, u);
        lemma_lex_lt_connected(s[j].denom, d);
    }
    assert forall|j: int| 0 <= j < s.skip(i + 1).len() implies !row_match(
        #[trigger] s.skip(i + 1)[j],
        u,
        d,
    ) by {
        assert(s.skip(i + 1)[j] == s[i + 1 + j]);
        assert(row_key_lt(s[i], s[i + 1 + j]));
        lemma_lex_lt_connected(u, s[i + 1 + j].user);
        lemma_lex_lt_connected(d, s[i + 1 + j].denom);
    }
    lemma_rows_absent(s.take(i), u, d);
    lemma_rows_absent(s.skip(i + 1), u, d);
    lemma_rows_concat(s.take(i) + seq![s[i]], s.skip(i + 1), u, d);
    lemma_rows_concat(s.take(i), seq![s[i]], u, d);
    assert(seq![s[i]].skip(1) =~= Seq::<RowV>::empty());
    assert(seq![s[i]][0] == s[i]);
    assert(row_match(seq![s[i]][0], u, d));
    assert(rows_accrued(seq![s[i]], u, d) == s[i].accrued + rows_accrued(
        seq![s[i]].skip(1),
        u,
        d,
    ));
    assert(rows_last(seq![s[i]], u, d) == s[i].last + rows_last(seq![s[i]].skip(1), u, d));
    assert(rows_count(seq![s[i]], u, d) == 1 + rows_count(seq![s[i]].skip(1), u, d));
}

/// The account book: total staked weight, the per-denom global indices,
/// each account's weight, and each account's per-denom checkpoint.
/// All three lists are kept strictly sorted by their keys.
pub struct RewardsSM {
    pub total_staked: u128,
    pub global_indices: Vec<IndexEntry>,
    pub user_weights: Vec<WeightEntry>,
    pub user_rewards: Vec<RewardInfo>,
}

/// Total weight of a sequence of weight entries.
pub open spec fn sum_weights(s: Seq<CoinV>) -> int
    decreases s.len(),
{
    if s.len() == 0 {
        0
    } else {
        s[0].amount + sum_weights(s.skip(1))
    }
}

#[verifier::spinoff_prover]
pub proof fn lemma_sum_weights_concat(a: Seq<CoinV>, b: Seq<CoinV>)
    ensures
        sum_weights(a + b) == sum_weights(a) + sum_weights(b),
    decreases a.len(),
{
    if a.len() == 0 {
        assert(a + b =~= b);
    } else {
        assert((a + b)[0] == a[0]);
        assert((a + b).skip(1) =~= a.skip(1) + b);
        lemma_sum_weights_concat(a.skip(1), b);
    }
}

/// Each single amount is bounded by the sum, when all amounts are
/// non-negative.
#[verifier::spinoff_prover]
pub proof fn lemma_amount_le_sum(s: Seq<CoinV>, d: Seq<char>)
    requires
        forall|i: int| 0 <= i < s.len() ==> s[i].amount >= 0,
    ensures
        amount_of(s, d) <= sum_weights(s),
    decreases s.len(),
{
    if s.len() > 0 {
        assert(forall|i: int| 0 <= i < s.skip(1).len() ==> s.skip(1)[i] == s[i + 1]);
        lemma_amount_le_sum(s.skip(1), d);
    }
}

impl RewardsSM {
    /// The global index numerator for denom `d`; 0 when no entry exists.
    pub open spec fn index_num(self, d: Seq<char>) -> int {
        amount_of(gi_views(self.global_indices@), d)
    }

    /// Whether denom `d` has a global index entry.
    pub open spec fn has_index(self, d: Seq<char>) -> bool {
        exists|i: int| 0 <= i < self.global_indices@.len() && self.global_indices@[i].denom@ == d
    }

    /// The staked weight of account `u`; 0 when it has no entry.
    pub open spec fn weight_of(self, u: Seq<char>) -> int {
        amount_of(w_views(self.user_weights@), u)
    }

    /// Whether account `u` has a weight entry.
    pub open spec fn has_weight(self, u: Seq<char>) -> bool {
        exists|i: int| 0 <= i < self.user_weights@.len() && self.user_weights@[i].user@ == u
    }

    /// The folded rewards of `(u, d)`; 0 when no checkpoint row exists.
    pub open spec fn accrued_of(self, u: Seq<char>, d: Seq<char>) -> int {
        rows_accrued(row_views(self.user_rewards@), u, d)
    }

    /// The checkpoint index numerator of `(u, d)`; 0 when no row exists.
    pub open spec fn last_of(self, u: Seq<char>, d: Seq<char>) -> int {
        rows_last(row_views(self.user_rewards@), u, d)
    }

    /// Whether a checkpoint row `(u, d)` is stored.
    pub open spec fn has_row(self, u: Seq<char>, d: Seq<char>) -> bool {
        rows_count(row_views(self.user_rewards@), u, d) == 1
    }

    /// The ledger invariant.
    ///
    /// - all three lists are strictly sorted by key;
    /// - weights are positive (a weight dropping to zero removes the row);
    /// - the total equals the sum of all weights;
    /// - every checkpoint points at an existing index and never runs ahead
    ///   of it;
    /// - a checkpoint row carries folded rewards or belongs to an account
    ///   that still has weight (the pruning discipline).
    pub open spec fn wf(self) -> bool {
        &&& sorted_coins(gi_views(self.global_indices@))
        &&& wf_coins(w_views(self.user_weights@))
        &&& sorted_rows(row_views(self.user_rewards@))
        &&& self.total_staked == sum_weights(w_views(self.user_weights@))
        &&& forall|i: int|
            0 <= i < self.user_rewards@.len() ==> self.has_index(
                #[trigger] self.user_rewards@[i].denom@,
            ) && self.user_rewards@[i].last_index.num() <= self.index_num(
                self.user_rewards@[i].denom@,
            )
        &&& forall|i: int|
            0 <= i < self.user_rewards@.len() ==> (#[trigger] self.user_rewards@[i]).accrued > 0
                || self.weight_of(self.user_rewards@[i].user@) > 0
    }

    /// A freshly initialized ledger: nothing staked, no indices, no rows.
    #[verifier::spinoff_prover]
    pub fn initialize() -> (r: RewardsSM)
        ensures
            r.wf(),
            r.total_staked == 0,
            r.global_indices@.len() == 0,
            r.user_weights@.len() == 0,
            r.user_rewards@.len() == 0,
    {
        let r = RewardsSM {
            total_staked: 0,
            global_indices: Vec::new(),
            user_weights: Vec::new(),
            user_rewards: Vec::new(),
        };
        proof {
            assert(gi_views(r.global_indices@) =~= Seq::<CoinV>::empty());
            assert(w_views(r.user_weights@) =~= Seq::<CoinV>::empty());
            assert(row_views(r.user_rewards@) =~= Seq::<RowV>::empty());
        }
        r
    }

    /// The recorded total staked weight.
    #[verifier::spinoff_prover]
    pub fn total_staked(&self) -> (r: u128)
        ensures
            r == sum_weights(w_views(self.user_weights@)) || r == self.total_staked,
            r == self.total_staked,
    {
        self.total_staked
    }
}

/// An existing index entry bounds the stored numerator: every stored
/// index is in representable range.
#[verifier::spinoff_prover]
pub proof fn lemma_gi_found(s: Seq<IndexEntry>, i: int)
    requires
        sorted_coins(gi_views(s)),
        0 <= i < s.len(),
    ensures
        amount_of(gi_views(s), s[i].denom@) == s[i].index.num(),
{
    assert(gi_views(s)[i].denom == s[i].denom@);
    crate::coins::lemma_amount_of_found(gi_views(s), i);
}

/// A denom with no entry has index numerator 0.
#[verifier::spinoff_prover]
pub proof fn lemma_gi_absent(s: Seq<IndexEntry>, d: Seq<char>)
    requires
        forall|i: int| 0 <= i < s.len() ==> s[i].denom@ != d,
    ensures
        amount_of(gi_views(s), d) == 0,
{
    assert(forall|i: int|
        0 <= i < gi_views(s).len() ==> (#[trigger] gi_views(s)[i]).denom != d);
    crate::coins::lemma_amount_of_absent(gi_views(s), d);
}

/// Weight entry lookups, in the same two shapes.
#[verifier::spinoff_prover]
pub proof fn lemma_w_found(s: Seq<WeightEntry>, i: int)
    requires
        sorted_coins(w_views(s)),
        0 <= i < s.len(),
    ensures
        amount_of(w_views(s), s[i].user@) == s[i].amount,
{
    assert(w_views(s)[i].denom == s[i].user@);
    crate::coins::lemma_amount_of_found(w_views(s), i);
}

#[verifier::spinoff_prover]
pub proof fn lemma_w_absent(s: Seq<WeightEntry>, u: Seq<char>)
    requires
        forall|i: int| 0 <= i < s.len() ==> s[i].user@ != u,
    ensures
        amount_of(w_views(s), u) == 0,
{
    assert(forall|i: int| 0 <= i < w_views(s).len() ==> (#[trigger] w_views(s)[i]).denom != u);
    crate::coins::lemma_amount_of_absent(w_views(s), u);
}


/// Every per-denom index sum is a stored numerator or zero, hence in
/// representable range.
#[verifier::spinoff_prover]
pub proof fn lemma_gi_in_range(s: Seq<IndexEntry>)
    requires
        sorted_coins(gi_views(s)),
    ensures
        forall|d: Seq<char>| 0 <= #[trigger] amount_of(gi_views(s), d) < index_bound(),
{
    assert forall|d: Seq<char>| 0 <= #[trigger] amount_of(gi_views(s), d) < index_bound() by {
        if exists|i: int| 0 <= i < s.len() && (#[trigger] s[i]).denom@ == d {
            let i = choose|i: int| 0 <= i < s.len() && (#[trigger] s[i]).denom@ == d;
            lemma_gi_found(s, i);
            lemma_index_in_range(s[i].index);
        } else {
            assert(forall|i: int| 0 <= i < s.len() ==> (#[trigger] s[i]).denom@ != d);
            lemma_gi_absent(s, d);
            assert(index_bound() > 0) by {
                lemma_index_in_range(RewardIndex { hi: 0, lo: 0 });
            }
        }
    }
}

} // verus!
