use vstd::prelude::*;
use crate::coins::{views, Coin, CoinV};
use crate::errors::RewardsError;
use crate::state::RewardsSM;
use crate::state_machine::delta_sum;

verus! {

/// Nanoseconds per second, the resolution of host timestamps.
pub const NANOS_PER_SECOND: u64 = 1_000_000_000;

/// A timestamp's whole seconds.
pub open spec fn secs(nanos: int) -> int {
    nanos / (NANOS_PER_SECOND as int)
}

/// The release shapes the host distinguishes: linear within the window,
/// or decaying towards its end.
#[derive(Clone, Copy, PartialEq, Eq, Structural, Debug)]
pub enum Release {
    Fixed,
    Decay,
}

/// A scheduled emission: `amount` released over `[start, end]` (host
/// timestamps in nanoseconds) with the given shape.
#[derive(Clone, Copy, PartialEq, Eq, Structural, Debug)]
pub struct Schedule {
    pub start: u64,
    pub end: u64,
    pub amount: u128,
    pub release: Release,
}

/// What a linear schedule releases over `[from, to]`: the elapsed
/// seconds within the window, as a floored 18-decimal fraction of the
/// window, times the amount, floored again.
pub open spec fn released_fixed(s: Schedule, from: int, to: int) -> int {
    let ss = secs(s.start as int);
    let es = secs(s.end as int);
    let fs = secs(from);
    let ts = secs(to);
    let lo = if ss > fs {
        ss
    } else {
        fs
    };
    let hi = if es < ts {
        es
    } else {
        ts
    };
    if ss > ts {
        0
    } else if hi <= lo {
        0
    } else {
        (s.amount * (((hi - lo) * (crate::index::FRAC_UNIT as int)) / (es - ss))) / (
        crate::index::FRAC_UNIT as int)
    }
}

/// The inputs on which the host's release computation is defined: the
/// window spans at least one whole second, and a decaying schedule's
/// amount is small enough for its quadratic bookkeeping.
pub open spec fn schedule_computable(s: Schedule) -> bool {
    &&& secs(s.start as int) < secs(s.end as int)
    &&& (s.release is Decay ==> 0 < s.amount <= u128::MAX / 2 && secs(s.end as int) - secs(
        s.start as int,
    ) < 0x1_0000_0000 && s.amount as int <= (secs(s.end as int) - secs(s.start as int)) * (secs(
        s.end as int,
    ) - secs(s.start as int)) * (crate::index::FRAC_UNIT as int))
}

/// Names what the host's decaying release computes over an interval; the
/// result depends on the schedule and the interval alone.
pub uninterp spec fn decay_released(start: int, end: int, amount: int, from: int, to: int) -> int;

/// Relies on `kujira::Schedule::released`: for a `Fixed` schedule it
/// returns `amount * floor(elapsed * 10^18 / window) / 10^18` with the
/// elapsed interval clamped to the window (zero before the start), all
/// in whole seconds; a `Decay` schedule's result depends on the same
/// arguments alone and stays below twice the amount, zero before the
/// window is reached.
#[verifier::external_body]
pub fn schedule_released(s: &Schedule, from: u64, to: u64) -> (r: u128)
    requires
        schedule_computable(*s),
    ensures
        s.release is Fixed ==> r as int == released_fixed(*s, from as int, to as int),
        s.release is Decay ==> r as int == decay_released(
            s.start as int,
            s.end as int,
            s.amount as int,
            from as int,
            to as int,
        ) && r as int <= 2 * (s.amount as int),
        secs(s.start as int) > secs(to as int) ==> r == 0,
{
    let release = match s.release {
        Release::Fixed => kujira::Release::Fixed,
        Release::Decay => kujira::Release::Decay,
    };
    let ks = kujira::Schedule {
        start: cosmwasm_std::Timestamp::from_nanos(s.start),
        end: cosmwasm_std::Timestamp::from_nanos(s.end),
        amount: cosmwasm_std::Uint128::new(s.amount),
        release,
    };
    ks.released(
        &cosmwasm_std::Timestamp::from_nanos(from),
        &cosmwasm_std::Timestamp::from_nanos(to),
    ).u128()
}

/// One registered incentive: its allocation order, denomination,
/// schedule, and the time up to which it has already been distributed.
pub struct Incentive {
    pub id: u128,
    pub denom: String,
    pub schedule: Schedule,
    pub last_distributed: u64,
}

/// The registry of scheduled emissions: incentives in ascending id
/// order, plus the last id handed out.
pub struct IncentiveState {
    pub incentives: Vec<Incentive>,
    pub last_id: u128,
}

/// The crank handles the stalest incentives first: ascending by
/// last-distributed time, ties broken by id.
pub open spec fn crank_key_lt(a: Incentive, b: Incentive) -> bool {
    a.last_distributed < b.last_distributed || (a.last_distributed == b.last_distributed && a.id
        < b.id)
}

impl IncentiveState {
    /// The registry invariant: ids strictly ascending (so unique) and
    /// no id beyond the counter; every stored incentive is still
    /// unfinished and its schedule remains computable.
    pub open spec fn wf(self) -> bool {
        &&& forall|i: int, j: int|
            0 <= i < j < self.incentives@.len() ==> self.incentives@[i].id < self.incentives@[j].id
        &&& forall|i: int|
            0 <= i < self.incentives@.len() ==> (#[trigger] self.incentives@[i]).id
                <= self.last_id
        &&& forall|i: int|
            0 <= i < self.incentives@.len() ==> schedule_computable(
                (#[trigger] self.incentives@[i]).schedule,
            ) && self.incentives@[i].last_distributed < self.incentives@[i].schedule.end
    }

    pub fn new() -> (r: IncentiveState)
        ensures
            r.wf(),
            r.incentives@.len() == 0,
            r.last_id == 0,
    {
        IncentiveState { incentives: Vec::new(), last_id: 0 }
    }

    /// Picks the positions of the up-to-`limit` stalest incentives, in
    /// crank order: stalest first, ties broken by lowest id, and every
    /// incentive left behind is at least as fresh as everything picked.
    pub fn stalest_indices(&self, limit: usize) -> (r: Vec<usize>)
        requires
            self.wf(),
        ensures
            is_stalest_selection(self.incentives@, limit as int, r@),
    {
        let n = self.incentives.len();
        let mut rest: Vec<usize> = Vec::new();
        let mut c: usize = 0;
        while c < n
            invariant
                c <= n,
                rest@.len() == c,
                forall|k: int| 0 <= k < c ==> (#[trigger] rest@[k]) == k,
            decreases n - c,
        {
            rest.push(c);
            c = c + 1;
        }
        let mut out: Vec<usize> = Vec::new();
        proof {
            assert forall|k: int| 0 <= k < n implies #[trigger] covered(out@, rest@, k) by {
                assert(rest@[k] == k);
            }
        }
        while out.len() < limit && rest.len() > 0
            invariant
                self.wf(),
                n == self.incentives@.len(),
                out@.len() + rest@.len() == n,
                out@.len() <= limit,
                forall|k: int| 0 <= k < rest@.len() ==> (#[trigger] rest@[k]) < n,
                forall|i: int| 0 <= i < out@.len() ==> (#[trigger] out@[i]) < n,
                forall|i: int, j: int| 0 <= i < j < out@.len() ==> out@[i] != out@[j],
                forall|i: int, j: int| 0 <= i < j < rest@.len() ==> rest@[i] != rest@[j],
                forall|i: int, k: int|
                    0 <= i < out@.len() && 0 <= k < rest@.len() ==> (#[trigger] out@[i]) != (
                    #[trigger] rest@[k]),
                forall|k: int| 0 <= k < n ==> #[trigger] covered(out@, rest@, k),
                forall|i: int, j: int|
                    0 <= i < j < out@.len() ==> crank_key_lt(
                        self.incentives@[out@[i] as int],
                        self.incentives@[out@[j] as int],
                    ),
                forall|i: int, k: int|
                    0 <= i < out@.len() && 0 <= k < rest@.len() ==> crank_key_lt(
                        self.incentives@[(#[trigger] out@[i]) as int],
                        self.incentives@[(#[trigger] rest@[k]) as int],
                    ),
            decreases limit - out@.len(),
        {
            let ghost rest0 = rest@;
            let ghost out0 = out@;
            let mut best: usize = 0;
            let mut m: usize = 1;
            while m < rest.len()
                invariant
                    best < m <= rest@.len(),
                    rest@.len() > 0,
                    self.wf(),
                    n == self.incentives@.len(),
                    forall|k: int| 0 <= k < rest@.len() ==> (#[trigger] rest@[k]) < n,
                    forall|i: int, j: int| 0 <= i < j < rest@.len() ==> rest@[i] != rest@[j],
                    forall|k: int|
                        0 <= k < m && k != best ==> crank_key_lt(
                            self.incentives@[rest@[best as int] as int],
                            self.incentives@[(#[trigger] rest@[k]) as int],
                        ),
                decreases rest@.len() - m,
            {
                let ci = rest[m];
                let bi = rest[best];
                let challenger = &self.incentives[ci];
                let champion = &self.incentives[bi];
                if challenger.last_distributed < champion.last_distributed || (
                challenger.last_distributed == champion.last_distributed && challenger.id
                    < champion.id) {
                    proof {
                        assert forall|k: int| 0 <= k < m + 1 && k != m implies crank_key_lt(
                            self.incentives@[rest@[m as int] as int],
                            self.incentives@[(#[trigger] rest@[k]) as int],
                        ) by {
                            if k != best {
                                lemma_crank_key_transitive(
                                    self.incentives@[rest@[m as int] as int],
                                    self.incentives@[rest@[best as int] as int],
                                    self.incentives@[rest@[k] as int],
                                );
                            }
                        }
                    }
                    best = m;
                } else {
                    proof {
                        // distinct positions carry distinct ids, so the keys are ordered
                        assert(rest@[best as int] != rest@[m as int]);
                        let a = self.incentives@[rest@[best as int] as int];
                        let b = self.incentives@[rest@[m as int] as int];
                        assert(a.id != b.id) by {
                            if rest@[best as int] < rest@[m as int] {
                                assert(self.incentives@[rest@[best as int] as int].id
                                    < self.incentives@[rest@[m as int] as int].id);
                            } else {
                                assert(self.incentives@[rest@[m as int] as int].id
                                    < self.incentives@[rest@[best as int] as int].id);
                            }
                        }
                        assert(crank_key_lt(a, b));
                    }
                }
                m = m + 1;
            }
            let picked = rest.remove(best);
            out.push(picked);
            proof {
                assert(rest@ == rest0.remove(best as int));
                assert(picked == rest0[best as int]);
                assert(out@ == out0.push(picked));
                assert forall|k: int| 0 <= k < n implies #[trigger] covered(out@, rest@, k) by {
                    assert(covered(out0, rest0, k));
                    if k == picked as int {
                        assert(out@[out@.len() - 1] == picked);
                    } else {
                        if exists|i: int| 0 <= i < out0.len() && (#[trigger] out0[i]) == k {
                            let i = choose|i: int| 0 <= i < out0.len() && (#[trigger] out0[i]) == k;
                            assert(out@[i] == k);
                        } else {
                            let i = choose|i: int|
                                0 <= i < rest0.len() && (#[trigger] rest0[i]) == k;
                            if i < best {
                                assert(rest@[i] == k);
                            } else if i > best {
                                assert(rest@[i - 1] == k);
                            }
                        }
                    }
                }
            }
        }
        proof {
            assert forall|k: int, i: int|
                #![trigger self.incentives@[k], out@[i]]
                0 <= k < self.incentives@.len() && 0 <= i < out@.len() && (forall|i2: int|
                    0 <= i2 < out@.len() ==> (#[trigger] out@[i2]) != k) implies crank_key_lt(
                self.incentives@[out@[i] as int],
                self.incentives@[k],
            ) by {
                assert(covered(out@, rest@, k));
                let kk = choose|ii: int| 0 <= ii < rest@.len() && (#[trigger] rest@[ii]) == k;
                assert(crank_key_lt(
                    self.incentives@[out@[i] as int],
                    self.incentives@[rest@[kk] as int],
                ));
            }
            assert(is_stalest_selection(self.incentives@, limit as int, out@));
        }
        out
    }
}

/// What it means for `sel` to pick the up-to-`limit` stalest positions:
/// distinct valid positions, in strict crank order, as many as allowed,
/// with everything unpicked at least as fresh as everything picked.
pub open spec fn is_stalest_selection(incs: Seq<Incentive>, limit: int, sel: Seq<usize>) -> bool {
    &&& sel.len() == vstd::math::min(limit, incs.len() as int)
    &&& forall|i: int| 0 <= i < sel.len() ==> (#[trigger] sel[i]) < incs.len()
    &&& forall|i: int, j: int| 0 <= i < j < sel.len() ==> sel[i] != sel[j]
    &&& forall|i: int, j: int|
        0 <= i < j < sel.len() ==> crank_key_lt(incs[sel[i] as int], incs[sel[j] as int])
    &&& forall|k: int, i: int|
        #![trigger incs[k], sel[i]]
        0 <= k < incs.len() && 0 <= i < sel.len() && (forall|i2: int|
            0 <= i2 < sel.len() ==> (#[trigger] sel[i2]) != k) ==> crank_key_lt(
            incs[sel[i] as int],
            incs[k],
        )
}

/// What one incentive has released since its last distribution, up to
/// `now`, by its shape.
pub open spec fn released_of(inc: Incentive, now: u64) -> int {
    if inc.schedule.release is Fixed {
        released_fixed(inc.schedule, inc.last_distributed as int, now as int)
    } else {
        decay_released(
            inc.schedule.start as int,
            inc.schedule.end as int,
            inc.schedule.amount as int,
            inc.last_distributed as int,
            now as int,
        )
    }
}

/// The coin one cranked position contributes: its positive release, or
/// nothing.
pub open spec fn coin_step(incs: Seq<Incentive>, i: int, now: u64) -> Seq<CoinV> {
    if released_of(incs[i], now) > 0 {
        seq![CoinV { denom: incs[i].denom@, amount: released_of(incs[i], now) }]
    } else {
        Seq::empty()
    }
}

/// The coins a crank over the first `k` selected positions hands out,
/// in selection order.
pub open spec fn crank_coins_pre(incs: Seq<Incentive>, sel: Seq<usize>, now: u64, k: int) -> Seq<
    CoinV,
>
    decreases k
        when 0 <= k <= sel.len()
{
    if k <= 0 {
        Seq::empty()
    } else {
        crank_coins_pre(incs, sel, now, k - 1) + coin_step(incs, sel[k - 1] as int, now)
    }
}

/// The coins a crank over the whole selection hands out.
pub open spec fn crank_coins(incs: Seq<Incentive>, sel: Seq<usize>, now: u64) -> Seq<CoinV> {
    crank_coins_pre(incs, sel, now, sel.len() as int)
}

/// Whether position `k` is among the selected ones.
pub open spec fn sel_hits(sel: Seq<usize>, k: int) -> bool {
    exists|i: int| 0 <= i < sel.len() && (#[trigger] sel[i]) as int == k
}

/// What becomes of the registry entry at position `i` after a crank:
/// untouched when unselected or with nothing released, advanced to `now`
/// otherwise, and dropped once its schedule is over.
pub open spec fn crank_step(incs: Seq<Incentive>, sel: Seq<usize>, now: u64, i: int) -> Seq<
    Incentive,
> {
    if !sel_hits(sel, i) || released_of(incs[i], now) <= 0 {
        seq![incs[i]]
    } else if now >= incs[i].schedule.end {
        Seq::empty()
    } else {
        seq![
            Incentive {
                id: incs[i].id,
                denom: incs[i].denom,
                schedule: incs[i].schedule,
                last_distributed: now,
            },
        ]
    }
}

/// The registry after cranking the first `k` positions.
pub open spec fn crank_registry_pre(incs: Seq<Incentive>, sel: Seq<usize>, now: u64, k: int) -> Seq<
    Incentive,
>
    decreases k
        when 0 <= k <= incs.len()
{
    if k <= 0 {
        Seq::empty()
    } else {
        crank_registry_pre(incs, sel, now, k - 1) + crank_step(incs, sel, now, k - 1)
    }
}

/// The whole registry after a crank over the selection at `now`.
pub open spec fn crank_registry(incs: Seq<Incentive>, sel: Seq<usize>, now: u64) -> Seq<Incentive> {
    crank_registry_pre(incs, sel, now, incs.len() as int)
}

/// Two incentives with the same id, denomination, schedule and clock.
pub open spec fn inc_like(a: Incentive, b: Incentive) -> bool {
    a.id == b.id && a.denom@ == b.denom@ && a.schedule == b.schedule && a.last_distributed
        == b.last_distributed
}

/// Two registries that agree entry by entry.
pub open spec fn incs_like(a: Seq<Incentive>, b: Seq<Incentive>) -> bool {
    a.len() == b.len() && forall|i: int| 0 <= i < a.len() ==> inc_like(#[trigger] a[i], b[i])
}

/// Position `k` appears in one of the two lists.
pub open spec fn covered(out: Seq<usize>, rest: Seq<usize>, k: int) -> bool {
    (exists|i: int| 0 <= i < out.len() && (#[trigger] out[i]) == k) || (exists|i: int|
        0 <= i < rest.len() && (#[trigger] rest[i]) == k)
}

/// The crank order is transitive.
proof fn lemma_crank_key_transitive(a: Incentive, b: Incentive, c: Incentive)
    requires
        crank_key_lt(a, b) || a.id == b.id && a.last_distributed == b.last_distributed,
        crank_key_lt(b, c),
    ensures
        crank_key_lt(a, c),
{
}


impl Clone for Incentive {
    fn clone(&self) -> (r: Self)
        ensures
            r.id == self.id,
            r.denom@ == self.denom@,
            r.schedule == self.schedule,
            r.last_distributed == self.last_distributed,
    {
        Incentive {
            id: self.id,
            denom: self.denom.clone(),
            schedule: self.schedule,
            last_distributed: self.last_distributed,
        }
    }
}

impl IncentiveState {
    /// Advances the up-to-`limit` stalest incentives to `now`, handing
    /// their positive releases to the ledger as one distribution, in
    /// crank order; advanced incentives whose schedule is over are
    /// dropped, everything else is untouched.
    ///
    /// Fails with `NoStake` exactly when nothing is staked (even if
    /// nothing was released) and with `Overflow` exactly when some
    /// index numerator would leave its range; the registry and ledger
    /// are then unchanged.
    #[verifier::rlimit(100)]
    #[verifier::spinoff_prover]
    pub fn distribute_lri(
        &mut self,
        sm: &mut RewardsSM,
        limit: usize,
        now: u64,
    ) -> (r: Result<Vec<Coin>, RewardsError>)
        requires
            old(self).wf(),
            old(sm).wf(),
        ensures
            final(self).wf(),
            final(sm).wf(),
            final(self).last_id == old(self).last_id,
            match r {
                Ok(coins) => {
                    &&& crate::laws::distribute_step(*old(sm), *final(sm), views(coins@))
                    &&& coins@.len() <= limit
                    &&& exists|sel: Seq<usize>|
                        #[trigger] is_stalest_selection(old(self).incentives@, limit as int, sel)
                            && views(coins@) == crank_coins(old(self).incentives@, sel, now)
                            && incs_like(
                            final(self).incentives@,
                            crank_registry(old(self).incentives@, sel, now),
                        )
                },
                Err(e) => {
                    &&& final(self).incentives@ == old(self).incentives@
                    &&& *final(sm) == *old(sm)
                    &&& (e == RewardsError::NoStake <==> old(sm).total_staked == 0)
                    &&& (e == RewardsError::NoStake || e == RewardsError::Overflow)
                },
            },
    {
        let sel = self.stalest_indices(limit);
        let ghost incs0 = self.incentives@;
        let mut coins: Vec<Coin> = Vec::new();
        let mut upd: Vec<(usize, u128)> = Vec::new();
        let mut i: usize = 0;
        proof {
            assert(views(coins@) =~= crank_coins_pre(incs0, sel@, now, 0));
        }
        while i < sel.len()
            invariant
                i <= sel@.len(),
                self.wf(),
                *self == *old(self),
                incs0 == self.incentives@,
                is_stalest_selection(incs0, limit as int, sel@),
                sel@.len() <= limit,
                coins@.len() <= i,
                views(coins@) == crank_coins_pre(incs0, sel@, now, i as int),
                forall|x: int|
                    0 <= x < upd@.len() ==> (#[trigger] upd@[x]).0 < incs0.len() && sel_hits(
                        sel@,
                        upd@[x].0 as int,
                    ) && released_of(incs0[upd@[x].0 as int], now) > 0,
                forall|ii: int|
                    #![trigger sel@[ii]]
                    0 <= ii < i && released_of(incs0[sel@[ii] as int], now) > 0 ==> exists|x: int|
                        0 <= x < upd@.len() && (#[trigger] upd@[x]).0 == sel@[ii],
            decreases sel@.len() - i,
        {
            let idx = sel[i];
            let inc = &self.incentives[idx];
            let rel = schedule_released(&inc.schedule, inc.last_distributed, now);
            let ghost coins0 = views(coins@);
            let ghost upd0 = upd@;
            if rel > 0 {
                coins.push(Coin { denom: inc.denom.clone(), amount: rel });
                upd.push((idx, rel));
                proof {
                    assert(sel_hits(sel@, idx as int)) by {
                        assert(sel@[i as int] == idx);
                    }
                    assert(views(coins@) =~= coins0.push(
                        CoinV { denom: incs0[idx as int].denom@, amount: rel as int },
                    ));
                }
            }
            proof {
                assert(rel as int == released_of(incs0[idx as int], now));
                assert(views(coins@) =~= crank_coins_pre(incs0, sel@, now, i + 1));
                assert forall|ii: int|
                    #![trigger sel@[ii]]
                    0 <= ii < i + 1 && released_of(incs0[sel@[ii] as int], now) > 0 implies exists|
                    x: int,
                |
                    0 <= x < upd@.len() && (#[trigger] upd@[x]).0 == sel@[ii] by {
                    if ii < i {
                        let x = choose|x: int|
                            0 <= x < upd0.len() && (#[trigger] upd0[x]).0 == sel@[ii];
                        assert(upd@[x].0 == sel@[ii]);
                    } else {
                        assert(upd@[upd@.len() - 1].0 == idx);
                    }
                }
            }
            i = i + 1;
        }
        match sm.distribute_rewards(&coins) {
            Err(e) => {
                proof {
                    crate::state_machine::lemma_has_index_iff(*old(sm));
                }
                Err(e)
            },
            Ok(()) => {
                proof {
                    assert forall|d: Seq<char>| #[trigger]
                        crate::state_machine::coin_in(views(coins@), d)
                            <==> crate::state_machine::has_denom(coins@, d) by {
                        if crate::state_machine::has_denom(coins@, d) {
                            let k2 = choose|k2: int|
                                0 <= k2 < coins@.len() && coins@[k2].denom@ == d;
                            assert(views(coins@)[k2].denom == d);
                        }
                        if crate::state_machine::coin_in(views(coins@), d) {
                            let k2 = choose|k2: int|
                                0 <= k2 < views(coins@).len() && views(coins@)[k2].denom == d;
                            assert(coins@[k2].denom@ == d);
                        }
                    }
                }
                // commit the advanced clocks, dropping finished incentives
                let mut kept: Vec<Incentive> = Vec::new();
                let mut k: usize = 0;
                proof {
                    assert(incs_like(kept@, crank_registry_pre(incs0, sel@, now, 0)));
                }
                while k < self.incentives.len()
                    invariant
                        k <= self.incentives@.len(),
                        *self == *old(self),
                        incs0 == self.incentives@,
                        self.wf(),
                        is_stalest_selection(incs0, limit as int, sel@),
                        incs_like(kept@, crank_registry_pre(incs0, sel@, now, k as int)),
                        forall|x: int|
                            0 <= x < upd@.len() ==> (#[trigger] upd@[x]).0 < incs0.len()
                                && sel_hits(sel@, upd@[x].0 as int) && released_of(
                                incs0[upd@[x].0 as int],
                                now,
                            ) > 0,
                        forall|ii: int|
                            #![trigger sel@[ii]]
                            0 <= ii < sel@.len() && released_of(incs0[sel@[ii] as int], now) > 0
                                ==> exists|x: int|
                                0 <= x < upd@.len() && (#[trigger] upd@[x]).0 == sel@[ii],
                        forall|j: int, j2: int|
                            0 <= j < j2 < kept@.len() ==> kept@[j].id < kept@[j2].id,
                        forall|j: int|
                            0 <= j < kept@.len() ==> schedule_computable(
                                (#[trigger] kept@[j]).schedule,
                            ) && kept@[j].last_distributed < kept@[j].schedule.end,
                        forall|j: int|
                            0 <= j < kept@.len() ==> (#[trigger] kept@[j]).id <= self.last_id,
                        forall|j: int, k2: int|
                            0 <= j < kept@.len() && k <= k2 < self.incentives@.len() ==> (
                            #[trigger] kept@[j]).id < (#[trigger] self.incentives@[k2]).id,
                    decreases self.incentives@.len() - k,
                {
                    // was this one advanced?
                    let mut hit: bool = false;
                    let mut u: usize = 0;
                    while u < upd.len()
                        invariant
                            u <= upd@.len(),
                            k < incs0.len(),
                            hit == exists|x: int|
                                0 <= x < u && (#[trigger] upd@[x]).0 as int == k as int,
                        decreases upd@.len() - u,
                    {
                        if upd[u].0 == k {
                            hit = true;
                            proof {
                                assert(upd@[u as int].0 as int == k as int);
                            }
                        }
                        u = u + 1;
                    }
                    proof {
                        // hit says exactly: selected, with something released
                        if hit {
                            let x = choose|x: int|
                                0 <= x < upd@.len() && (#[trigger] upd@[x]).0 as int == k as int;
                            assert(sel_hits(sel@, k as int));
                            assert(released_of(incs0[k as int], now) > 0);
                        } else {
                            if sel_hits(sel@, k as int) && released_of(incs0[k as int], now) > 0 {
                                let ii = choose|ii: int|
                                    0 <= ii < sel@.len() && (#[trigger] sel@[ii]) as int
                                        == k as int;
                                let x = choose|x: int|
                                    0 <= x < upd@.len() && (#[trigger] upd@[x]).0 == sel@[ii];
                                assert(upd@[x].0 as int == k as int);
                                assert(false);
                            }
                        }
                    }
                    let inc = &self.incentives[k];
                    let ghost kept0 = kept@;
                    if hit {
                        if now < inc.schedule.end {
                            let mut advanced = inc.clone();
                            advanced.last_distributed = now;
                            kept.push(advanced);
                        }
                    } else {
                        kept.push(inc.clone());
                    }
                    proof {
                        if kept@.len() > kept0.len() {
                            assert(kept@.last().id == incs0[k as int].id);
                        }
                        assert(crank_registry_pre(incs0, sel@, now, k + 1) == crank_registry_pre(
                            incs0,
                            sel@,
                            now,
                            k as int,
                        ) + crank_step(incs0, sel@, now, k as int));
                        assert forall|j: int|
                            0 <= j < kept@.len() implies inc_like(
                            #[trigger] kept@[j],
                            crank_registry_pre(incs0, sel@, now, k + 1)[j],
                        ) by {
                            if j < kept0.len() {
                                assert(kept@[j] == kept0[j]);
                                assert(crank_registry_pre(incs0, sel@, now, k + 1)[j]
                                    == crank_registry_pre(incs0, sel@, now, k as int)[j]);
                            } else {
                                assert(crank_registry_pre(incs0, sel@, now, k + 1)[j]
                                    == crank_step(incs0, sel@, now, k as int)[0]);
                            }
                        }
                        assert(incs_like(kept@, crank_registry_pre(incs0, sel@, now, k + 1)));
                    }
                    k = k + 1;
                }
                self.incentives = kept;
                proof {
                    assert(is_stalest_selection(old(self).incentives@, limit as int, sel@)
                        && views(coins@) == crank_coins(old(self).incentives@, sel@, now)
                        && incs_like(
                        self.incentives@,
                        crank_registry(old(self).incentives@, sel@, now),
                    ));
                }
                Ok(coins)
            },
        }
    }

    /// The coins the crank would distribute right now, without touching
    /// anything: the same selection and the same releases as
    /// `distribute_lri` on this state.
    #[verifier::spinoff_prover]
    pub fn get_lri(&self, limit: usize, now: u64) -> (r: Vec<Coin>)
        requires
            self.wf(),
        ensures
            r@.len() <= limit,
            crate::coins::positive_coins(views(r@)),
            exists|sel: Seq<usize>|
                #[trigger] is_stalest_selection(self.incentives@, limit as int, sel) && views(r@)
                    == crank_coins(self.incentives@, sel, now),
    {
        let sel = self.stalest_indices(limit);
        let ghost incs0 = self.incentives@;
        let mut coins: Vec<Coin> = Vec::new();
        let mut i: usize = 0;
        proof {
            assert(views(coins@) =~= crank_coins_pre(incs0, sel@, now, 0));
        }
        while i < sel.len()
            invariant
                i <= sel@.len(),
                self.wf(),
                incs0 == self.incentives@,
                is_stalest_selection(incs0, limit as int, sel@),
                sel@.len() <= limit,
                coins@.len() <= i,
                crate::coins::positive_coins(views(coins@)),
                views(coins@) == crank_coins_pre(incs0, sel@, now, i as int),
            decreases sel@.len() - i,
        {
            let idx = sel[i];
            let inc = &self.incentives[idx];
            let rel = schedule_released(&inc.schedule, inc.last_distributed, now);
            let ghost coins0 = views(coins@);
            if rel > 0 {
                coins.push(Coin { denom: inc.denom.clone(), amount: rel });
                proof {
                    assert(views(coins@) =~= coins0.push(
                        CoinV { denom: incs0[idx as int].denom@, amount: rel as int },
                    ));
                }
            }
            proof {
                assert(rel as int == released_of(incs0[idx as int], now));
                assert(views(coins@) =~= crank_coins_pre(incs0, sel@, now, i + 1));
            }
            i = i + 1;
        }
        proof {
            assert(is_stalest_selection(self.incentives@, limit as int, sel@) && views(coins@)
                == crank_coins(self.incentives@, sel@, now));
        }
        coins
    }

    /// Registers a new incentive and immediately distributes whatever
    /// its schedule has already released (so schedules that started in
    /// the past catch up at once); an incentive that is already over
    /// distributes everything and is not stored, and a stored one's
    /// clock starts at its schedule's start, or at `now` once something
    /// was released.
    ///
    /// Fails with `Overflow` exactly when the id counter or an index
    /// numerator would leave its range, and with `NoStake` exactly when
    /// something was released against an empty pool; the registry and
    /// ledger are then unchanged.
    #[verifier::rlimit(100)]
    #[verifier::spinoff_prover]
    pub fn register(
        &mut self,
        sm: &mut RewardsSM,
        denom: String,
        schedule: Schedule,
        now: u64,
    ) -> (r: Result<(), RewardsError>)
        requires
            old(self).wf(),
            old(sm).wf(),
            schedule_computable(schedule),
        ensures
            final(self).wf(),
            final(sm).wf(),
            r is Err <==> (old(self).last_id == u128::MAX || (initial_release(schedule, now) > 0
                && (old(sm).total_staked == 0 || exists|d: Seq<char>|
                (#[trigger] old(sm).index_num(d)) + delta_sum(
                    seq![CoinV { denom: denom@, amount: initial_release(schedule, now) }],
                    d,
                    old(sm).total_staked as int,
                ) >= crate::index::index_bound()))),
            match r {
                Ok(()) => {
                    let rel0 = initial_release(schedule, now);
                    let last0: u64 = if rel0 > 0 {
                        now
                    } else {
                        schedule.start
                    };
                    &&& final(self).last_id == old(self).last_id + 1
                    &&& (rel0 > 0 ==> crate::laws::distribute_step(
                        *old(sm),
                        *final(sm),
                        seq![CoinV { denom: denom@, amount: rel0 }],
                    ))
                    &&& (rel0 <= 0 ==> *final(sm) == *old(sm))
                    &&& (if last0 < schedule.end {
                        final(self).incentives@.len() == old(self).incentives@.len() + 1
                            && final(self).incentives@.drop_last() == old(self).incentives@
                            && final(self).incentives@.last().id == old(self).last_id + 1
                            && final(self).incentives@.last().denom@ == denom@
                            && final(self).incentives@.last().schedule == schedule
                            && final(self).incentives@.last().last_distributed == last0
                    } else {
                        final(self).incentives@ == old(self).incentives@
                    })
                },
                Err(e) => {
                    &&& final(self).incentives@ == old(self).incentives@
                    &&& final(self).last_id == old(self).last_id
                    &&& *final(sm) == *old(sm)
                    &&& (e == RewardsError::NoStake <==> (old(self).last_id != u128::MAX
                        && initial_release(schedule, now) > 0 && old(sm).total_staked == 0))
                    &&& (e == RewardsError::NoStake || e == RewardsError::Overflow)
                },
            },
    {
        if self.last_id == u128::MAX {
            return Err(RewardsError::Overflow);
        }
        let id = self.last_id + 1;
        let rel = schedule_released(&schedule, 0, now);
        proof {
            assert(rel as int == initial_release(schedule, now));
        }
        let last: u64 = if rel > 0 {
            now
        } else {
            schedule.start
        };
        if rel > 0 {
            let mut coin_list: Vec<Coin> = Vec::new();
            coin_list.push(Coin { denom: denom.clone(), amount: rel });
            match sm.distribute_rewards(&coin_list) {
                Err(e) => {
                    proof {
                        crate::state_machine::lemma_has_index_iff(*old(sm));
                        assert(views(coin_list@) =~= seq![
                            CoinV { denom: denom@, amount: rel as int },
                        ]);
                    }
                    return Err(e);
                },
                Ok(()) => {
                    proof {
                        assert(views(coin_list@) =~= seq![
                            CoinV { denom: denom@, amount: rel as int },
                        ]);
                        assert forall|d: Seq<char>| #[trigger]
                            crate::state_machine::coin_in(views(coin_list@), d)
                                <==> crate::state_machine::has_denom(coin_list@, d) by {
                            if crate::state_machine::has_denom(coin_list@, d) {
                                assert(views(coin_list@)[0].denom == d);
                            }
                            if crate::state_machine::coin_in(views(coin_list@), d) {
                                assert(coin_list@[0].denom@ == d);
                            }
                        }
                    }
                },
            }
        }
        self.last_id = id;
        if last < schedule.end {
            let ghost pre = self.incentives@;
            let inc = Incentive { id, denom, schedule, last_distributed: last };
            self.incentives.push(inc);
            proof {
                assert(self.incentives@.drop_last() =~= pre);
                assert forall|i: int, j: int|
                    0 <= i < j < self.incentives@.len() implies self.incentives@[i].id
                    < self.incentives@[j].id by {
                    if j < pre.len() {
                        assert(self.incentives@[i] == pre[i]);
                        assert(self.incentives@[j] == pre[j]);
                    } else {
                        assert(self.incentives@[i] == pre[i]);
                        assert(self.incentives@[j].id == id);
                    }
                }
            }
        }
        Ok(())
    }
}

/// What a schedule has already released at registration time, measured
/// from the epoch as the registry seeds new clocks.
pub open spec fn initial_release(s: Schedule, now: u64) -> int {
    if s.release is Fixed {
        released_fixed(s, 0, now as int)
    } else {
        decay_released(s.start as int, s.end as int, s.amount as int, 0, now as int)
    }
}

} // verus!
