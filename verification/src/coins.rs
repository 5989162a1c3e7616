use vstd::prelude::*;
use crate::denoms::{lex_lt, lemma_lex_lt_connected, lemma_lex_lt_transitive, str_eq, str_lt};

verus! {

/// An amount of a single denomination.
#[derive(Debug)]
pub struct Coin {
    pub denom: String,
    pub amount: u128,
}

/// The mathematical content of a [`Coin`].
pub struct CoinV {
    pub denom: Seq<char>,
    pub amount: int,
}

impl View for Coin {
    type V = CoinV;

    open spec fn view(&self) -> CoinV {
        CoinV { denom: self.denom@, amount: self.amount as int }
    }
}

impl Clone for Coin {
    #[verifier::spinoff_prover]
    fn clone(&self) -> (r: Self)
        ensures
            r@ == self@,
    {
        Coin { denom: self.denom.clone(), amount: self.amount }
    }
}

/// The views of a list of coins.
pub open spec fn views(s: Seq<Coin>) -> Seq<CoinV> {
    s.map_values(|c: Coin| c@)
}

/// What a single coin contributes to denom `d`.
pub open spec fn part_of(c: CoinV, d: Seq<char>) -> int {
    if c.denom == d {
        c.amount
    } else {
        0
    }
}

/// The total amount of denom `d` held across the list `s`.
pub open spec fn amount_of(s: Seq<CoinV>, d: Seq<char>) -> int
    decreases s.len(),
{
    if s.len() == 0 {
        0
    } else {
        part_of(s[0], d) + amount_of(s.skip(1), d)
    }
}

/// Coins are in strictly ascending denom order (hence denoms are unique).
pub open spec fn sorted_coins(s: Seq<CoinV>) -> bool {
    forall|i: int, j: int| 0 <= i < j < s.len() ==> lex_lt(s[i].denom, s[j].denom)
}

/// Every amount is strictly positive.
pub open spec fn positive_coins(s: Seq<CoinV>) -> bool {
    forall|i: int| 0 <= i < s.len() ==> s[i].amount > 0
}

/// A normalized coin list: sorted ascending by denom, unique denoms,
/// no zero amounts. Every list this crate returns has this shape.
pub open spec fn wf_coins(s: Seq<CoinV>) -> bool {
    sorted_coins(s) && positive_coins(s)
}

#[verifier::spinoff_prover]
pub proof fn lemma_amount_of_concat(a: Seq<CoinV>, b: Seq<CoinV>, d: Seq<char>)
    ensures
        amount_of(a + b, d) == amount_of(a, d) + amount_of(b, d),
    decreases a.len(),
{
    if a.len() == 0 {
        assert(a + b =~= b);
    } else {
        assert((a + b)[0] == a[0]);
        assert((a + b).skip(1) =~= a.skip(1) + b);
        lemma_amount_of_concat(a.skip(1), b, d);
    }
}

#[verifier::spinoff_prover]
pub proof fn lemma_amount_of_push(s: Seq<CoinV>, c: CoinV, d: Seq<char>)
    ensures
        amount_of(s.push(c), d) == amount_of(s, d) + part_of(c, d),
{
    assert(s.push(c) =~= s + seq![c]);
    lemma_amount_of_concat(s, seq![c], d);
    assert(amount_of(seq![c], d) == part_of(c, d) + amount_of(seq![c].skip(1), d));
    assert(seq![c].skip(1) =~= Seq::<CoinV>::empty());
}

#[verifier::spinoff_prover]
pub proof fn lemma_amount_of_insert(s: Seq<CoinV>, i: int, c: CoinV, d: Seq<char>)
    requires
        0 <= i <= s.len(),
    ensures
        amount_of(s.insert(i, c), d) == amount_of(s, d) + part_of(c, d),
{
    assert(s.insert(i, c) =~= s.take(i) + seq![c] + s.skip(i));
    assert(s =~= s.take(i) + s.skip(i));
    lemma_amount_of_concat(s.take(i) + seq![c], s.skip(i), d);
    lemma_amount_of_concat(s.take(i), seq![c], d);
    lemma_amount_of_concat(s.take(i), s.skip(i), d);
    assert(amount_of(seq![c], d) == part_of(c, d) + amount_of(seq![c].skip(1), d));
    assert(seq![c].skip(1) =~= Seq::<CoinV>::empty());
}

#[verifier::spinoff_prover]
pub proof fn lemma_amount_of_update(s: Seq<CoinV>, i: int, c: CoinV, d: Seq<char>)
    requires
        0 <= i < s.len(),
    ensures
        amount_of(s.update(i, c), d) == amount_of(s, d) - part_of(s[i], d) + part_of(c, d),
{
    assert(s.update(i, c) =~= s.take(i) + seq![c] + s.skip(i + 1));
    assert(s =~= s.take(i) + seq![s[i]] + s.skip(i + 1));
    lemma_amount_of_concat(s.take(i) + seq![c], s.skip(i + 1), d);
    lemma_amount_of_concat(s.take(i), seq![c], d);
    lemma_amount_of_concat(s.take(i) + seq![s[i]], s.skip(i + 1), d);
    lemma_amount_of_concat(s.take(i), seq![s[i]], d);
    assert(amount_of(seq![c], d) == part_of(c, d) + amount_of(seq![c].skip(1), d));
    assert(seq![c].skip(1) =~= Seq::<CoinV>::empty());
    assert(amount_of(seq![s[i]], d) == part_of(s[i], d) + amount_of(seq![s[i]].skip(1), d));
    assert(seq![s[i]].skip(1) =~= Seq::<CoinV>::empty());
}

/// In a list whose denoms all differ from `d`, nothing is held in `d`.
#[verifier::spinoff_prover]
pub proof fn lemma_amount_of_absent(s: Seq<CoinV>, d: Seq<char>)
    requires
        forall|i: int| 0 <= i < s.len() ==> s[i].denom != d,
    ensures
        amount_of(s, d) == 0,
    decreases s.len(),
{
    if s.len() > 0 {
        assert(forall|i: int| 0 <= i < s.skip(1).len() ==> s.skip(1)[i] == s[i + 1]);
        lemma_amount_of_absent(s.skip(1), d);
    }
}

/// In a sorted list, the entry at `i` holds the whole amount of its denom.
#[verifier::spinoff_prover]
pub proof fn lemma_amount_of_found(s: Seq<CoinV>, i: int)
    requires
        sorted_coins(s),
        0 <= i < s.len(),
    ensures
        amount_of(s, s[i].denom) == s[i].amount,
    decreases s.len(),
{
    let d = s[i].denom;
    if i == 0 {
        assert forall|j: int| 0 <= j < s.skip(1).len() implies s.skip(1)[j].denom != d by {
            assert(s.skip(1)[j] == s[j + 1]);
            lemma_lex_lt_connected(s[0].denom, s[j + 1].denom);
        }
        lemma_amount_of_absent(s.skip(1), d);
    } else {
        lemma_lex_lt_connected(s[0].denom, d);
        assert(forall|j: int| 0 <= j < s.skip(1).len() ==> s.skip(1)[j] == s[j + 1]);
        lemma_amount_of_found(s.skip(1), i - 1);
    }
}

/// Adds one coin with a positive amount into a normalized list, keeping it
/// normalized. Fails only when the denom's total would exceed `u128::MAX`.
#[verifier::spinoff_prover]
pub fn add_coin(coins: &mut Vec<Coin>, c: Coin) -> (r: bool)
    requires
        wf_coins(views(old(coins)@)),
        c@.amount > 0,
    ensures
        r ==> wf_coins(views(final(coins)@)) && forall|d: Seq<char>|
            #[trigger] amount_of(views(final(coins)@), d) == amount_of(views(old(coins)@), d)
                + part_of(c@, d),
        !r ==> final(coins)@ == old(coins)@ && amount_of(views(old(coins)@), c@.denom) + c@.amount
            > u128::MAX,
{
    let ghost orig = views(coins@);
    let mut j: usize = 0;
    while j < coins.len() && str_lt(coins[j].denom.as_str(), c.denom.as_str())
        invariant
            j <= coins@.len(),
            coins@ == old(coins)@,
            wf_coins(orig),
            orig == views(coins@),
            forall|k: int| 0 <= k < j ==> lex_lt(orig[k].denom, c@.denom),
        decreases coins@.len() - j,
    {
        j = j + 1;
    }
    proof {
        assert(j == coins@.len() || !lex_lt(orig[j as int].denom, c@.denom));
    }
    if j < coins.len() && str_eq(coins[j].denom.as_str(), c.denom.as_str()) {
        // same denom: sum the amounts
        let cur = coins[j].amount;
        if cur > u128::MAX - c.amount {
            proof {
                lemma_amount_of_found(orig, j as int);
            }
            return false;
        }
        let updated = Coin { denom: c.denom, amount: cur + c.amount };
        proof {
            assert(updated@.denom == orig[j as int].denom);
            lemma_amount_of_found(orig, j as int);
        }
        coins.set(j, updated);
        proof {
            assert(views(coins@) =~= orig.update(j as int, updated@));
            assert forall|d: Seq<char>|
                #[trigger] amount_of(views(coins@), d) == amount_of(orig, d) + part_of(
                    c@,
                    d,
                ) by {
                lemma_amount_of_update(orig, j as int, updated@, d);
            }
        }
        true
    } else {
        proof {
            if j < orig.len() {
                lemma_lex_lt_connected(orig[j as int].denom, c@.denom);
            }
            assert forall|k: int| j <= k < orig.len() implies lex_lt(c@.denom, orig[k].denom) by {
                if k > j {
                    assert(lex_lt(orig[j as int].denom, orig[k].denom));
                    lemma_lex_lt_transitive(c@.denom, orig[j as int].denom, orig[k].denom);
                }
            }
        }
        coins.insert(j, c);
        proof {
            assert(views(coins@) =~= orig.insert(j as int, c@));
            let now = views(coins@);
            assert forall|a: int, b: int| 0 <= a < b < now.len() implies lex_lt(
                now[a].denom,
                now[b].denom,
            ) by {
                assert(now[a] == if a < j {
                    orig[a]
                } else if a == j {
                    c@
                } else {
                    orig[a - 1]
                });
                assert(now[b] == if b < j {
                    orig[b]
                } else if b == j {
                    c@
                } else {
                    orig[b - 1]
                });
            }
            assert forall|d: Seq<char>|
                #[trigger] amount_of(now, d) == amount_of(orig, d) + part_of(c@, d) by {
                lemma_amount_of_insert(orig, j as int, c@, d);
            }
            assert forall|i: int| 0 <= i < orig.len() implies orig[i].denom != c@.denom by {
                lemma_lex_lt_connected(orig[i].denom, c@.denom);
            }
            lemma_amount_of_absent(orig, c@.denom);
        }
        true
    }
}

/// Brings an arbitrary coin list into normalized form: ascending denom
/// order, duplicate denoms summed, zero amounts dropped. Returns `None`
/// exactly when some denom's total does not fit in a `u128`.
#[verifier::spinoff_prover]
pub fn normalize_coins(coins: &Vec<Coin>) -> (r: Option<Vec<Coin>>)
    ensures
        r matches Some(out) ==> wf_coins(views(out@)) && forall|d: Seq<char>|
            #[trigger] amount_of(views(out@), d) == amount_of(views(coins@), d),
        r is None ==> exists|d: Seq<char>| amount_of(views(coins@), d) > u128::MAX,
{
    let mut out: Vec<Coin> = Vec::new();
    let mut i: usize = 0;
    proof {
        assert(views(coins@).take(0) =~= Seq::<CoinV>::empty());
        assert(views(out@) =~= Seq::<CoinV>::empty());
    }
    loop
        invariant
            i <= coins@.len(),
            wf_coins(views(out@)),
            forall|d: Seq<char>|
                #[trigger] amount_of(views(out@), d) == amount_of(views(coins@).take(i as int), d),
        decreases coins@.len() - i,
    {
        if i == coins.len() {
            proof {
                assert(views(coins@).take(coins@.len() as int) =~= views(coins@));
            }
            return Some(out);
        }
        let c = coins[i].clone();
        proof {
            assert(views(coins@).take(i + 1) =~= views(coins@).take(i as int).push(
                views(coins@)[i as int],
            ));
            lemma_amount_of_push(views(coins@).take(i as int), views(coins@)[i as int], c@.denom);
            assert forall|d: Seq<char>|
                #[trigger] amount_of(views(coins@).take(i + 1), d) == amount_of(
                    views(coins@).take(i as int),
                    d,
                ) + part_of(c@, d) by {
                lemma_amount_of_push(views(coins@).take(i as int), views(coins@)[i as int], d);
            }
        }
        if c.amount > 0 {
            let ghost pre = views(out@);
            let ok = add_coin(&mut out, c);
            if !ok {
                proof {
                    assert(amount_of(pre, c@.denom) + c@.amount > u128::MAX);
                    assert(amount_of(views(coins@).take(i + 1), c@.denom) > u128::MAX);
                    assert(forall|k: int|
                        0 <= k < views(coins@).len() ==> views(coins@)[k].amount >= 0);
                    lemma_partial_le_total(views(coins@), i + 1, c@.denom);
                    assert(amount_of(views(coins@), c@.denom) > u128::MAX);
                }
                return None;
            }
        }
        i = i + 1;
    }
}

/// A prefix of a list never holds more of a denom than the whole list,
/// since contributions are never negative... except they are counted from
/// raw input, so this holds only for non-negative amounts; views of exec
/// coins are always non-negative.
#[verifier::spinoff_prover]
proof fn lemma_partial_le_total(s: Seq<CoinV>, i: int, d: Seq<char>)
    requires
        0 <= i <= s.len(),
        forall|k: int| 0 <= k < s.len() ==> s[k].amount >= 0,
    ensures
        amount_of(s.take(i), d) <= amount_of(s, d),
{
    assert(s =~= s.take(i) + s.skip(i));
    lemma_amount_of_concat(s.take(i), s.skip(i), d);
    lemma_amount_of_nonneg(s.skip(i), d);
}

#[verifier::spinoff_prover]
pub proof fn lemma_amount_of_nonneg(s: Seq<CoinV>, d: Seq<char>)
    requires
        forall|k: int| 0 <= k < s.len() ==> s[k].amount >= 0,
    ensures
        amount_of(s, d) >= 0,
    decreases s.len(),
{
    if s.len() > 0 {
        assert(forall|k: int| 0 <= k < s.skip(1).len() ==> s.skip(1)[k] == s[k + 1]);
        lemma_amount_of_nonneg(s.skip(1), d);
    }
}


/// The amount a normalized list holds of one denom.
#[verifier::spinoff_prover]
pub fn amount_in(coins: &Vec<Coin>, denom: &String) -> (r: u128)
    requires
        wf_coins(views(coins@)),
    ensures
        r as int == amount_of(views(coins@), denom@),
{
    let n = coins.len();
    let mut j: usize = 0;
    while j < n
        invariant
            j <= n,
            n == coins@.len(),
            wf_coins(views(coins@)),
            forall|k: int| 0 <= k < j ==> (#[trigger] views(coins@)[k]).denom != denom@,
        decreases n - j,
    {
        if str_eq(coins[j].denom.as_str(), denom.as_str()) {
            proof {
                lemma_amount_of_found(views(coins@), j as int);
            }
            return coins[j].amount;
        }
        proof {
            assert(views(coins@)[j as int].denom == coins@[j as int].denom@);
        }
        j = j + 1;
    }
    proof {
        lemma_amount_of_absent(views(coins@), denom@);
    }
    0
}


/// A normalized list of machine coins never holds more than `u128::MAX`
/// of any denom.
#[verifier::spinoff_prover]
pub proof fn lemma_amount_of_bounded(s: Seq<CoinV>, d: Seq<char>)
    requires
        sorted_coins(s),
        forall|i: int| 0 <= i < s.len() ==> (#[trigger] s[i]).amount <= u128::MAX,
    ensures
        amount_of(s, d) <= u128::MAX,
{
    if exists|i: int| 0 <= i < s.len() && (#[trigger] s[i]).denom == d {
        let i = choose|i: int| 0 <= i < s.len() && (#[trigger] s[i]).denom == d;
        lemma_amount_of_found(s, i);
    } else {
        assert(forall|i: int| 0 <= i < s.len() ==> (#[trigger] s[i]).denom != d);
        lemma_amount_of_absent(s, d);
    }
}

} // verus!
