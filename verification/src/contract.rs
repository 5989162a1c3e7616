use vstd::prelude::*;
use crate::coins::{add_coin, views, wf_coins, Coin};
use crate::config::{Config, ConfigUpdate, StakingConfig, Whitelist};
use crate::errors::RewardsError;
use crate::fees::{calculate_fee_split, rate_sum, pair_views, split_recipients, residual};
use crate::incentive::{schedule_computable, secs, IncentiveState, Schedule};
use crate::index::FRAC_UNIT;
use crate::inflation::InflationState;
use crate::payment::{must_pay, one_coin, sub_first_coin};
use crate::state::{row_views, RewardsSM};
use crate::state_machine::post_fold_state;

verus! {

/// An opaque payload a caller asked to be called back with.
pub struct CallbackData {
    pub data: Vec<u8>,
}

/// Stake the attached coins; when `withdraw_rewards` is set the accrued
/// rewards are paid out in the same transaction.
pub struct StakeMsg {
    pub withdraw_rewards: bool,
    pub callback: Option<CallbackData>,
}

/// Give back `amount` of staked weight, plus rewards when asked.
pub struct UnstakeMsg {
    pub amount: u128,
    pub withdraw_rewards: bool,
    pub callback: Option<CallbackData>,
}

/// Pay out everything accrued.
pub struct ClaimRewardsMsg {
    pub callback: Option<CallbackData>,
}

/// Split the attached coins across all stakers.
pub struct DistributeRewardsMsg {
    pub callback: Option<CallbackData>,
}

/// The staking and reward operations every deployment offers.
pub enum RewardsMsg {
    Stake(StakeMsg),
    Unstake(UnstakeMsg),
    ClaimRewards(ClaimRewardsMsg),
    DistributeRewards(DistributeRewardsMsg),
}

/// A weight change reported by the external staking contract.
pub enum StakeChangedHookMsg {
    Stake { addr: String, amount: u128 },
    Unstake { addr: String, amount: u128 },
}

/// One member's weight change as the membership contract reports it.
pub struct MemberDiff {
    pub key: String,
    pub old_weight: Option<u64>,
    pub new_weight: Option<u64>,
}

/// A batch of membership changes.
pub struct MemberChangedHookMsg {
    pub diffs: Vec<MemberDiff>,
}

/// Everything the operation surface accepts.
pub enum ExecuteMsg {
    UpdateConfig(ConfigUpdate),
    AddIncentive { denom: String, schedule: Schedule },
    FundInflation,
    WithdrawInflation { amount: u128 },
    StakeChangeHook(StakeChangedHookMsg),
    MemberChangedHook(MemberChangedHookMsg),
    AdjustWeights { delta: Vec<(String, u128)> },
    Rewards(RewardsMsg),
}

/// An outbound intent, delivered by the host after the commit.
pub enum OutMsg {
    /// Move coins to an account.
    Send { to_address: String, amount: Vec<Coin> },
    /// Call the sender back with its payload and the listed coins.
    Callback { to_address: String, data: CallbackData, coins: Vec<Coin> },
    /// Ask the underlying rewards contract to pay out what this
    /// contract just accounted for.
    ClaimUnderlying { contract: String },
}

/// One attribute of an emitted event, as a plain value.
pub enum AttrVal {
    Text(String),
    Amount(u128),
    Flag(bool),
}

/// A namespaced event describing what an operation did.
pub struct Event {
    pub namespace: String,
    pub action: String,
    pub attributes: Vec<(String, AttrVal)>,
}

/// What an operation hands back to the host: outbound intents and
/// events, delivered only when the whole transaction commits.
pub struct Response {
    pub messages: Vec<OutMsg>,
    pub events: Vec<Event>,
}

/// Who called and what they attached.
pub struct MsgInfo {
    pub sender: String,
    pub funds: Vec<Coin>,
}

/// The whole contract state: configuration, the ledger, and the two
/// time-based sources.
pub struct ContractState {
    pub config: Config,
    pub sm: RewardsSM,
    pub incentives: IncentiveState,
    pub inflation: InflationState,
}

impl ContractState {
    /// All parts hold their invariants, fee tables stay within one whole
    /// unit, and registered incentives remain computable.
    pub open spec fn wf(self) -> bool {
        &&& self.sm.wf()
        &&& self.incentives.wf()
        &&& (self.config.distribution_module matches Some(dc) ==> rate_sum(dc.fees@) <= FRAC_UNIT
            as int)
    }

    /// Sets the contract up: an empty ledger and, when inflation is
    /// configured, a fresh crank stamp so nothing is owed retroactively.
    #[verifier::spinoff_prover]
    pub fn instantiate(config: Config, now: u64) -> (r: ContractState)
        requires
            config.distribution_module matches Some(dc) ==> rate_sum(dc.fees@) <= FRAC_UNIT as int,
        ensures
            r.wf(),
            r.sm.total_staked == 0,
            r.sm.global_indices@.len() == 0,
            r.sm.user_rewards@.len() == 0,
            r.sm.user_weights@.len() == 0,
            r.incentives.incentives@.len() == 0,
            r.inflation.funds is None,
            r.inflation.last_update == (if r.config.inflation_module is Some {
                Some(now)
            } else {
                None::<u64>
            }),
            r.config == config,
    {
        let has_inflation = config.inflation_module.is_some();
        ContractState {
            config,
            sm: RewardsSM::initialize(),
            incentives: IncentiveState::new(),
            inflation: InflationState {
                funds: None,
                last_update: if has_inflation {
                    Some(now)
                } else {
                    None
                },
            },
        }
    }
}

/// One outbound transfer of exactly these coins to this account.
pub open spec fn is_send(m: OutMsg, to: Seq<char>, coins: Seq<crate::coins::CoinV>) -> bool {
    m matches OutMsg::Send { to_address, amount } && to_address@ == to && views(amount@) == coins
}

/// One callback to this account carrying this payload and these coins.
pub open spec fn is_callback(
    m: OutMsg,
    to: Seq<char>,
    data: Seq<u8>,
    coins: Seq<crate::coins::CoinV>,
) -> bool {
    m matches OutMsg::Callback { to_address, data: d, coins: c } && to_address@ == to && d.data@
        == data && views(c@) == coins
}

/// The one message a reward payout produces: a transfer to the sender,
/// or their callback carrying the coins; no message at all when there
/// is nothing to hand over and no callback to honour.
pub open spec fn payout_msgs(
    msgs: Seq<OutMsg>,
    sender: Seq<char>,
    cb: Option<CallbackData>,
    pay: bool,
    coins: Seq<crate::coins::CoinV>,
) -> bool {
    match cb {
        None => if pay {
            msgs.len() == 1 && is_send(msgs[0], sender, coins)
        } else {
            msgs.len() == 0
        },
        Some(c) => msgs.len() == 1 && is_callback(
            msgs[0],
            sender,
            c.data@,
            if pay {
                coins
            } else {
                Seq::empty()
            },
        ),
    }
}

/// One event attribute holding a text value.
pub open spec fn attr_text(a: (String, AttrVal), key: Seq<char>, val: Seq<char>) -> bool {
    a.0@ == key && (a.1 matches AttrVal::Text(t) && t@ == val)
}

/// One event attribute holding an amount.
pub open spec fn attr_amount(a: (String, AttrVal), key: Seq<char>, val: u128) -> bool {
    a.0@ == key && (a.1 matches AttrVal::Amount(v) && v == val)
}

/// One event attribute holding a flag.
pub open spec fn attr_flag(a: (String, AttrVal), key: Seq<char>, val: bool) -> bool {
    a.0@ == key && (a.1 matches AttrVal::Flag(b) && b == val)
}

/// The event a stake or unstake emits: the action, the staker, the
/// moved amount and denom, and whether rewards were withdrawn inline.
pub open spec fn weight_event(
    e: Event,
    action: Seq<char>,
    staker: Seq<char>,
    amount: u128,
    denom: Seq<char>,
    withdraw: bool,
) -> bool {
    &&& e.action@ == action
    &&& e.attributes@.len() == 4
    &&& attr_text(e.attributes@[0], "staker"@, staker)
    &&& attr_amount(e.attributes@[1], "amount"@, amount)
    &&& attr_text(e.attributes@[2], "denom"@, denom)
    &&& attr_flag(e.attributes@[3], "withdraw_rewards"@, withdraw)
}

/// Everything a stake settles: the ledger change of `increase_weight`,
/// the payout message and event — or the exact overflow failure, with
/// the ledger untouched.
pub open spec fn stake_outcome(
    pre: RewardsSM,
    post: RewardsSM,
    sender: Seq<char>,
    coin: crate::coins::CoinV,
    msg: StakeMsg,
    r: Result<Response, RewardsError>,
) -> bool {
    let paid = crate::fold::fold_coins(
        pre.global_indices@,
        row_views(pre.user_rewards@),
        sender,
        pre.weight_of(sender),
    );
    &&& (r is Err <==> (pre.weight_of(sender) + coin.amount > u128::MAX || pre.total_staked
        + coin.amount > u128::MAX || !crate::fold::fold_fits(
        pre.global_indices@,
        row_views(pre.user_rewards@),
        sender,
        pre.weight_of(sender),
    )))
    &&& match r {
        Ok(res) => {
            &&& post_fold_state(
                pre,
                post,
                sender,
                pre.weight_of(sender),
                pre.weight_of(sender) + coin.amount,
                msg.withdraw_rewards,
            )
            &&& post.total_staked == pre.total_staked + coin.amount
            &&& payout_msgs(
                res.messages@,
                sender,
                msg.callback,
                msg.withdraw_rewards && paid.len() > 0,
                paid,
            )
            &&& res.events@.len() == 1
            &&& weight_event(
                res.events@[0],
                "rewards/stake"@,
                sender,
                coin.amount as u128,
                coin.denom,
                msg.withdraw_rewards,
            )
        },
        Err(e) => post == pre && e == RewardsError::Overflow,
    }
}

/// Stakes `stake_coin` for `sender`: their weight grows by its amount,
/// and the accrued rewards are paid out alongside when asked (to the
/// sender directly, or to the callback).
#[verifier::rlimit(100)]
#[verifier::spinoff_prover]
pub fn stake_op(sm: &mut RewardsSM, sender: &String, stake_coin: Coin, msg: StakeMsg) -> (r:
    Result<Response, RewardsError>)
    requires
        old(sm).wf(),
    ensures
        final(sm).wf(),
        stake_outcome(*old(sm), *final(sm), sender@, stake_coin@, msg, r),
{
    let ghost amount0 = stake_coin@.amount;
    let coins = match sm.increase_weight(sender, stake_coin.amount, msg.withdraw_rewards) {
        Err(e) => {
            return Err(e);
        },
        Ok(c) => c,
    };
    let mut messages: Vec<OutMsg> = Vec::new();
    let pay = msg.withdraw_rewards && coins.len() > 0;
    proof {
        assert(msg.withdraw_rewards && views(coins@).len() > 0 ==> pay);
    }
    match &msg.callback {
        None => {
            if pay {
                messages.push(OutMsg::Send { to_address: sender.clone(), amount: coins });
            }
        },
        Some(cb) => {
            let paid = if pay {
                coins
            } else {
                Vec::new()
            };
            proof {
                if !pay {
                    assert(views(paid@) =~= Seq::<crate::coins::CoinV>::empty());
                }
            }
            let data = CallbackData { data: clone_bytes(&cb.data) };
            messages.push(OutMsg::Callback { to_address: sender.clone(), data, coins: paid });
        },
    }
    let mut attributes: Vec<(String, AttrVal)> = Vec::new();
    attributes.push((new_string("staker"), AttrVal::Text(sender.clone())));
    attributes.push((new_string("amount"), AttrVal::Amount(stake_coin.amount)));
    attributes.push((new_string("denom"), AttrVal::Text(stake_coin.denom)));
    attributes.push((new_string("withdraw_rewards"), AttrVal::Flag(msg.withdraw_rewards)));
    let event = Event {
        namespace: new_string("rewards"),
        action: new_string("rewards/stake"),
        attributes,
    };
    let mut events: Vec<Event> = Vec::new();
    events.push(event);
    Ok(Response { messages, events })
}

/// A small exec helper: an owned copy of a string literal.
fn new_string(s: &str) -> (r: String)
    ensures
        r@ == s@,
{
    s.to_owned()
}

/// A small exec helper: an owned copy of a byte payload.
fn clone_bytes(b: &Vec<u8>) -> (r: Vec<u8>)
    ensures
        r@ == b@,
{
    let mut out: Vec<u8> = Vec::new();
    let mut i: usize = 0;
    while i < b.len()
        invariant
            i <= b@.len(),
            out@ == b@.take(i as int),
        decreases b@.len() - i,
    {
        out.push(b[i]);
        proof {
            assert(out@ =~= b@.take(i + 1));
        }
        i = i + 1;
    }
    proof {
        assert(b@.take(b@.len() as int) =~= b@);
    }
    out
}

/// Everything an unstake settles: the freed stake plus (when asked) the
/// accrued rewards go back in one message, the weight shrinks — or the
/// exact failure, with the ledger untouched.
pub open spec fn unstake_outcome(
    pre: RewardsSM,
    post: RewardsSM,
    sender: Seq<char>,
    stake_denom: Seq<char>,
    msg: UnstakeMsg,
    r: Result<Response, RewardsError>,
) -> bool {
    let w = pre.weight_of(sender);
    let paid = crate::fold::fold_coins(
        pre.global_indices@,
        row_views(pre.user_rewards@),
        sender,
        w,
    );
    let fits = crate::fold::fold_fits(pre.global_indices@, row_views(pre.user_rewards@), sender, w);
    &&& (r == Err::<Response, RewardsError>(RewardsError::ZeroUnstake) <==> msg.amount == 0)
    &&& (r == Err::<Response, RewardsError>(RewardsError::WeightNotFound) <==> (msg.amount > 0 && w
        == 0))
    &&& (r == Err::<Response, RewardsError>(RewardsError::Underflow) <==> (msg.amount > 0 && 0 < w
        < msg.amount))
    &&& (r == Err::<Response, RewardsError>(RewardsError::Overflow) <==> (0 < msg.amount <= w && (
    !fits || (msg.withdraw_rewards && crate::coins::amount_of(paid, stake_denom) + msg.amount
        > u128::MAX))))
    &&& (r is Err ==> post == pre)
    &&& match r {
        Ok(res) => {
            &&& post_fold_state(pre, post, sender, w, w - msg.amount, msg.withdraw_rewards)
            &&& post.total_staked == pre.total_staked - msg.amount
            &&& res.messages@.len() == 1
            &&& {
                let back = crate::coins::CoinV { denom: stake_denom, amount: msg.amount as int };
                let returned_ok = |coins: Seq<crate::coins::CoinV>|
                    if msg.withdraw_rewards {
                        crate::coins::wf_coins(coins) && forall|d: Seq<char>|
                            #[trigger] crate::coins::amount_of(coins, d) == crate::coins::amount_of(
                                paid,
                                d,
                            ) + crate::coins::part_of(back, d)
                    } else {
                        coins =~= seq![back]
                    };
                match msg.callback {
                    None => (res.messages@[0] matches OutMsg::Send { to_address, amount }
                        && to_address@ == sender && returned_ok(views(amount@))),
                    Some(c) => (res.messages@[0] matches OutMsg::Callback {
                        to_address,
                        data,
                        coins,
                    } && to_address@ == sender && data.data@ == c.data@ && returned_ok(
                        views(coins@),
                    )),
                }
            }
            &&& res.events@.len() == 1
            &&& weight_event(
                res.events@[0],
                "rewards/unstake"@,
                sender,
                msg.amount,
                stake_denom,
                msg.withdraw_rewards,
            )
        },
        Err(e) => true,
    }
}

/// Unstakes `amount` for `sender`: their weight shrinks, the freed stake
/// coins go back (merged with the accrued rewards when withdrawing).
#[verifier::rlimit(100)]
#[verifier::spinoff_prover]
pub fn unstake_op(
    sm: &mut RewardsSM,
    sender: &String,
    stake_denom: &String,
    msg: UnstakeMsg,
) -> (r: Result<Response, RewardsError>)
    requires
        old(sm).wf(),
    ensures
        final(sm).wf(),
        unstake_outcome(*old(sm), *final(sm), sender@, stake_denom@, msg, r),
{
    if msg.amount == 0 {
        return Err(RewardsError::ZeroUnstake);
    }
    let w = sm.get_weight(sender);
    if w == 0 {
        return Err(RewardsError::WeightNotFound);
    }
    if msg.amount > w {
        return Err(RewardsError::Underflow);
    }
    if msg.withdraw_rewards {
        // settle up front that the freed stake can be merged with an
        // equally named accrued reward, so a failure changes nothing
        let preview = match sm.get_accrued(sender) {
            Err(e) => {
                return Err(e);
            },
            Ok(c) => c,
        };
        let already = crate::coins::amount_in(&preview, stake_denom);
        if msg.amount > u128::MAX - already {
            return Err(RewardsError::Overflow);
        }
        proof {
            assert(views(preview@) == crate::fold::fold_coins(
                old(sm).global_indices@,
                row_views(old(sm).user_rewards@),
                sender@,
                old(sm).weight_of(sender@),
            ));
            assert(crate::coins::amount_of(
                crate::fold::fold_coins(
                    old(sm).global_indices@,
                    row_views(old(sm).user_rewards@),
                    sender@,
                    old(sm).weight_of(sender@),
                ),
                stake_denom@,
            ) + msg.amount <= u128::MAX);
        }
    }
    let rewards = match sm.decrease_weight(sender, msg.amount, msg.withdraw_rewards) {
        Err(e) => {
            proof {
                // the weight checks rule everything but a fold overflow
                // out, and withdrawing has already ruled that out too
                if msg.withdraw_rewards {
                    assert(false);
                }
            }
            return Err(e);
        },
        Ok(c) => c,
    };
    let back = Coin { denom: stake_denom.clone(), amount: msg.amount };
    let coins = if msg.withdraw_rewards {
        let mut merged = rewards;
        let ok = add_coin(&mut merged, back);
        if !ok {
            proof {
                assert(false);
            }
            return Err(RewardsError::Overflow);
        }
        merged
    } else {
        let mut only: Vec<Coin> = Vec::new();
        only.push(back);
        proof {
            assert(views(only@) =~= seq![
                crate::coins::CoinV { denom: stake_denom@, amount: msg.amount as int },
            ]);
        }
        only
    };
    let mut messages: Vec<OutMsg> = Vec::new();
    match &msg.callback {
        None => {
            messages.push(OutMsg::Send { to_address: sender.clone(), amount: coins });
        },
        Some(cb) => {
            let data = CallbackData { data: clone_bytes(&cb.data) };
            messages.push(OutMsg::Callback { to_address: sender.clone(), data, coins });
        },
    }
    let mut attributes: Vec<(String, AttrVal)> = Vec::new();
    attributes.push((new_string("staker"), AttrVal::Text(sender.clone())));
    attributes.push((new_string("amount"), AttrVal::Amount(msg.amount)));
    attributes.push((new_string("denom"), AttrVal::Text(stake_denom.clone())));
    attributes.push((new_string("withdraw_rewards"), AttrVal::Flag(msg.withdraw_rewards)));
    let event = Event {
        namespace: new_string("rewards"),
        action: new_string("rewards/unstake"),
        attributes,
    };
    let mut events: Vec<Event> = Vec::new();
    events.push(event);
    Ok(Response { messages, events })
}

/// Everything a claim settles: the whole accrued fold goes out in one
/// message and is zeroed in storage; an empty claim fails without
/// touching anything, as does a fold that leaves the 128-bit range.
pub open spec fn claim_outcome(
    pre: RewardsSM,
    post: RewardsSM,
    sender: Seq<char>,
    msg: ClaimRewardsMsg,
    r: Result<Response, RewardsError>,
) -> bool {
    let w = pre.weight_of(sender);
    let paid = crate::fold::fold_coins(
        pre.global_indices@,
        row_views(pre.user_rewards@),
        sender,
        w,
    );
    let fits = crate::fold::fold_fits(pre.global_indices@, row_views(pre.user_rewards@), sender, w);
    &&& (r == Err::<Response, RewardsError>(RewardsError::Overflow) <==> !fits)
    &&& (r == Err::<Response, RewardsError>(RewardsError::NoRewardsToClaim) <==> (fits
        && paid.len() == 0))
    &&& (r is Err ==> post == pre)
    &&& match r {
        Ok(res) => {
            &&& post_fold_state(pre, post, sender, w, w, true)
            &&& post.total_staked == pre.total_staked
            &&& payout_msgs(res.messages@, sender, msg.callback, true, paid)
            &&& res.events@.len() == 1
            &&& res.events@[0].action@ == "rewards/claim"@
            &&& res.events@[0].attributes@.len() == 1
            &&& attr_text(res.events@[0].attributes@[0], "staker"@, sender)
        },
        Err(e) => true,
    }
}

/// Pays out everything `sender` has accrued; an empty claim fails.
#[verifier::rlimit(100)]
#[verifier::spinoff_prover]
pub fn claim_op(sm: &mut RewardsSM, sender: &String, msg: ClaimRewardsMsg) -> (r: Result<
    Response,
    RewardsError,
>)
    requires
        old(sm).wf(),
    ensures
        final(sm).wf(),
        claim_outcome(*old(sm), *final(sm), sender@, msg, r),
{
    // read the payout first, so an empty claim leaves the ledger alone
    let preview = match sm.get_accrued(sender) {
        Err(e) => {
            return Err(e);
        },
        Ok(c) => c,
    };
    if preview.len() == 0 {
        return Err(RewardsError::NoRewardsToClaim);
    }
    let coins = match sm.claim_accrued(sender) {
        Err(e) => {
            proof {
                assert(false);
            }
            return Err(e);
        },
        Ok(c) => c,
    };
    let mut messages: Vec<OutMsg> = Vec::new();
    match &msg.callback {
        None => {
            messages.push(OutMsg::Send { to_address: sender.clone(), amount: coins });
        },
        Some(cb) => {
            let data = CallbackData { data: clone_bytes(&cb.data) };
            messages.push(OutMsg::Callback { to_address: sender.clone(), data, coins });
        },
    }
    let mut attributes: Vec<(String, AttrVal)> = Vec::new();
    attributes.push((new_string("staker"), AttrVal::Text(sender.clone())));
    let event = Event {
        namespace: new_string("rewards"),
        action: new_string("rewards/claim"),
        attributes,
    };
    let mut events: Vec<Event> = Vec::new();
    events.push(event);
    Ok(Response { messages, events })
}

/// Everything a distribution settles: the configured fees go out to
/// their recipients, the rest raises the indices — or the exact
/// failure, with the ledger untouched.
pub open spec fn distribute_outcome(
    pre: RewardsSM,
    post: RewardsSM,
    sender: Seq<char>,
    funds: Seq<crate::coins::CoinV>,
    fees: Seq<(crate::rates::Rate, String)>,
    msg: DistributeRewardsMsg,
    r: Result<Response, RewardsError>,
) -> bool {
    let kept = residual(funds, fees);
    let split = split_recipients(funds, fees);
    &&& (r == Err::<Response, RewardsError>(RewardsError::NoStake) <==> pre.total_staked == 0)
    &&& (r == Err::<Response, RewardsError>(RewardsError::Overflow) <==> (pre.total_staked > 0
        && exists|d: Seq<char>|
        (#[trigger] pre.index_num(d)) + crate::state_machine::delta_sum(
            kept,
            d,
            pre.total_staked as int,
        ) >= crate::index::index_bound()))
    &&& (r is Err ==> post == pre && (r == Err::<Response, RewardsError>(RewardsError::NoStake)
        || r == Err::<Response, RewardsError>(RewardsError::Overflow)))
    &&& match r {
        Ok(res) => {
            &&& post.total_staked == pre.total_staked
            &&& post.user_weights@ == pre.user_weights@
            &&& post.user_rewards@ == pre.user_rewards@
            &&& forall|d: Seq<char>|
                #[trigger] post.index_num(d) == pre.index_num(d)
                    + crate::state_machine::delta_sum(kept, d, pre.total_staked as int)
            &&& res.messages@.len() == split.len() + (if msg.callback is Some {
                1int
            } else {
                0
            })
            &&& forall|i: int|
                0 <= i < split.len() ==> #[trigger] is_send(
                    res.messages@[i],
                    split[i].0,
                    split[i].1,
                )
            &&& (msg.callback matches Some(c) ==> is_callback(
                res.messages@[split.len() as int],
                sender,
                c.data@,
                Seq::empty(),
            ))
            &&& res.events@.len() == 1
            &&& res.events@[0].action@ == "rewards/distribute"@
            &&& res.events@[0].attributes@.len() == 1
            &&& attr_text(res.events@[0].attributes@[0], "sender"@, sender)
        },
        Err(e) => true,
    }
}

/// Splits the configured fees out of the attached coins, sends them to
/// the recipients, and distributes the rest across the stakers.
#[verifier::rlimit(100)]
#[verifier::spinoff_prover]
pub fn distribute_op(
    sm: &mut RewardsSM,
    sender: &String,
    funds: Vec<Coin>,
    fees: &Vec<(crate::rates::Rate, String)>,
    msg: DistributeRewardsMsg,
) -> (r: Result<Response, RewardsError>)
    requires
        old(sm).wf(),
        rate_sum(fees@) <= FRAC_UNIT as int,
    ensures
        final(sm).wf(),
        distribute_outcome(*old(sm), *final(sm), sender@, views(funds@), fees@, msg, r),
{
    let ghost funds0 = views(funds@);
    let mut rewards = funds;
    let recipients = calculate_fee_split(&mut rewards, fees);
    let ghost split = split_recipients(funds0, fees@);
    match sm.distribute_rewards(&rewards) {
        Err(e) => Err(e),
        Ok(()) => {
            proof {
                assert forall|d: Seq<char>| #[trigger]
                    crate::state_machine::coin_in(views(rewards@), d)
                        <==> crate::state_machine::has_denom(rewards@, d) by {
                    if crate::state_machine::has_denom(rewards@, d) {
                        let k = choose|k: int| 0 <= k < rewards@.len() && rewards@[k].denom@ == d;
                        assert(views(rewards@)[k].denom == d);
                    }
                    if crate::state_machine::coin_in(views(rewards@), d) {
                        let k = choose|k: int|
                            0 <= k < views(rewards@).len() && views(rewards@)[k].denom == d;
                        assert(rewards@[k].denom@ == d);
                    }
                }
            }
            let mut messages: Vec<OutMsg> = Vec::new();
            let mut fee_pairs = recipients;
            let ghost pairs0 = pair_views(fee_pairs@);
            let n0: usize = fee_pairs.len();
            let mut j: usize = 0;
            while fee_pairs.len() > 0
                invariant
                    final(sm).wf(),
                    j + fee_pairs@.len() == n0,
                    pairs0.len() == n0,
                    messages@.len() == j,
                    pairs0 == split,
                    forall|i: int| 0 <= i < j ==> #[trigger] is_send(
                        messages@[i],
                        pairs0[i].0,
                        pairs0[i].1,
                    ),
                    forall|i: int|
                        0 <= i < fee_pairs@.len() ==> #[trigger] pair_views(fee_pairs@)[i]
                            == pairs0[j + i],
                decreases fee_pairs@.len(),
            {
                let ghost pv0 = pair_views(fee_pairs@);
                let (addr, coins) = fee_pairs.remove(0);
                proof {
                    assert(pair_views(fee_pairs@) =~= pv0.skip(1));
                    assert(pv0[0] == pairs0[j as int]);
                    assert(forall|i: int|
                        0 <= i < pair_views(fee_pairs@).len() ==> #[trigger] pair_views(
                            fee_pairs@,
                        )[i] == pv0[i + 1]);
                }
                messages.push(OutMsg::Send { to_address: addr, amount: coins });
                j = j + 1;
            }
            match &msg.callback {
                None => {},
                Some(cb) => {
                    let data = CallbackData { data: clone_bytes(&cb.data) };
                    let none: Vec<Coin> = Vec::new();
                    proof {
                        assert(views(none@) =~= Seq::<crate::coins::CoinV>::empty());
                    }
                    messages.push(
                        OutMsg::Callback { to_address: sender.clone(), data, coins: none },
                    );
                },
            }
            let mut attributes: Vec<(String, AttrVal)> = Vec::new();
            attributes.push((new_string("sender"), AttrVal::Text(sender.clone())));
            let event = Event {
                namespace: new_string("rewards"),
                action: new_string("rewards/distribute"),
                attributes,
            };
            let mut events: Vec<Event> = Vec::new();
            events.push(event);
            Ok(Response { messages, events })
        },
    }
}

/// Whether the pass-through source runs before an operation: the module
/// is configured, the host reported pending coins, and something is
/// staked.
pub open spec fn underlying_runs(pre: ContractState, up: Option<Vec<Coin>>) -> bool {
    pre.config.underlying_rewards_module is Some && (up matches Some(p) && p@.len() > 0)
        && pre.sm.total_staked > 0
}

/// The three source cranks that precede a reward operation, step by
/// step through the two intermediate ledgers: the incentive crank (when
/// enabled and staked), the pass-through distribution, the inflation
/// crank.
pub open spec fn drain_steps(
    pre: ContractState,
    mid: ContractState,
    sm1: RewardsSM,
    sm2: RewardsSM,
    now: u64,
    up: Option<Vec<Coin>>,
) -> bool {
    &&& (match pre.config.incentive_module {
        Some(cfg) => if pre.sm.total_staked > 0 {
            &&& mid.incentives.last_id == pre.incentives.last_id
            &&& exists|sel: Seq<usize>|
                #[trigger] crate::incentive::is_stalest_selection(
                    pre.incentives.incentives@,
                    cfg.crank_limit as int,
                    sel,
                ) && crate::laws::distribute_step(
                    pre.sm,
                    sm1,
                    crate::incentive::crank_coins(pre.incentives.incentives@, sel, now),
                ) && crate::incentive::incs_like(
                    mid.incentives.incentives@,
                    crate::incentive::crank_registry(pre.incentives.incentives@, sel, now),
                )
        } else {
            sm1 == pre.sm && mid.incentives == pre.incentives
        },
        None => sm1 == pre.sm && mid.incentives == pre.incentives,
    })
    &&& (if underlying_runs(pre, up) {
        crate::laws::distribute_step(sm1, sm2, views(up->0@))
    } else {
        sm2 == sm1
    })
    &&& (match pre.config.inflation_module {
        Some(cfg) => {
            &&& mid.inflation.last_update == Some(now)
            &&& {
                let emit = crate::inflation::crank_emission(
                    pre.inflation,
                    sm2.total_staked as int,
                    cfg.rate_per_year.num(),
                    now,
                );
                if emit > 0 {
                    &&& pre.inflation.funds is Some
                    &&& crate::laws::distribute_step(
                        sm2,
                        mid.sm,
                        seq![
                            crate::coins::CoinV {
                                denom: pre.inflation.funds->0@.denom,
                                amount: emit,
                            },
                        ],
                    )
                    &&& (match mid.inflation.funds {
                        None => pre.inflation.funds->0@.amount - emit == 0,
                        Some(rem) => rem@.denom == pre.inflation.funds->0@.denom && rem@.amount
                            == pre.inflation.funds->0@.amount - emit,
                    })
                } else {
                    mid.sm == sm2 && mid.inflation.funds == pre.inflation.funds
                }
            }
        },
        None => mid.sm == sm2 && mid.inflation == pre.inflation,
    })
}

/// What the pre-drain guarantees when it succeeds: the configuration is
/// untouched, the three sources ran in order, and the scheduled
/// messages are exactly the pass-through claim, when that ran.
pub open spec fn drained(
    pre: ContractState,
    mid: ContractState,
    now: u64,
    up: Option<Vec<Coin>>,
    msgs: Seq<OutMsg>,
) -> bool {
    &&& mid.config == pre.config
    &&& exists|sm1: RewardsSM, sm2: RewardsSM|
        #[trigger] drain_steps(pre, mid, sm1, sm2, now, up)
    &&& (if underlying_runs(pre, up) {
        msgs.len() == 1 && (msgs[0] matches OutMsg::ClaimUnderlying { contract }
            && (pre.config.underlying_rewards_module matches Some(u) && contract@
            == u.underlying_rewards_contract@))
    } else {
        msgs.len() == 0
    })
}

/// Runs the time-based sources that precede every reward operation:
/// the incentive crank (when enabled and something is staked), the
/// pass-through of the underlying contract's pending rewards (handed in
/// by the host), and the inflation crank.
#[verifier::rlimit(100)]
#[verifier::spinoff_prover]
fn pre_drain(state: &mut ContractState, now: u64, underlying_pending: &Option<Vec<Coin>>) -> (r:
    Result<Vec<OutMsg>, RewardsError>)
    requires
        old(state).wf(),
        old(state).inflation.last_update matches Some(t) ==> t <= now,
    ensures
        final(state).wf(),
        final(state).config == old(state).config,
        r matches Ok(msgs) ==> drained(
            *old(state),
            *final(state),
            now,
            *underlying_pending,
            msgs@,
        ),
{
    let mut messages: Vec<OutMsg> = Vec::new();
    let zero_staked = state.sm.total_staked() == 0;
    if state.config.incentive_module.is_some() && !zero_staked {
        let limit = match &state.config.incentive_module {
            Some(cfg) => cfg.crank_limit,
            None => 0,
        };
        match state.incentives.distribute_lri(&mut state.sm, limit, now) {
            Err(e) => {
                return Err(e);
            },
            Ok(_) => {},
        }
    }
    let ghost sm1v = state.sm;
    let ghost inc1v = state.incentives;
    if state.config.underlying_rewards_module.is_some() && !zero_staked {
        match underlying_pending {
            None => {},
            Some(pending) => {
                if pending.len() > 0 {
                    match state.sm.distribute_rewards(pending) {
                        Err(e) => {
                            return Err(e);
                        },
                        Ok(()) => {
                            proof {
                                assert(forall|i: int|
                                    0 <= i < views(pending@).len() ==> (#[trigger] views(
                                        pending@,
                                    )[i]).amount >= 0);
                                assert forall|d: Seq<char>| #[trigger]
                                    crate::state_machine::coin_in(views(pending@), d)
                                        <==> crate::state_machine::has_denom(pending@, d) by {
                                    if crate::state_machine::has_denom(pending@, d) {
                                        let k = choose|k: int|
                                            0 <= k < pending@.len() && pending@[k].denom@ == d;
                                        assert(views(pending@)[k].denom == d);
                                    }
                                    if crate::state_machine::coin_in(views(pending@), d) {
                                        let k = choose|k: int|
                                            0 <= k < views(pending@).len() && views(
                                                pending@,
                                            )[k].denom == d;
                                        assert(pending@[k].denom@ == d);
                                    }
                                }
                            }
                            proof {
                                assert(pending@ == underlying_pending->0@);
                                assert(crate::laws::distribute_step(
                                    sm1v,
                                    state.sm,
                                    views(pending@),
                                ));
                            }
                            let contract = match &state.config.underlying_rewards_module {
                                Some(u) => u.underlying_rewards_contract.clone(),
                                None => new_string(""),
                            };
                            messages.push(OutMsg::ClaimUnderlying { contract });
                        },
                    }
                }
            },
        }
    }
    let ghost sm2v = state.sm;
    if state.config.inflation_module.is_some() {
        let rate = match &state.config.inflation_module {
            Some(cfg) => cfg.rate_per_year,
            None => crate::rates::Rate { atomics: 0 },
        };
        match state.inflation.crank(&mut state.sm, rate, now) {
            Err(e) => {
                return Err(e);
            },
            Ok(coins) => {
                proof {
                    if coins@.len() == 1 {
                        assert(views(coins@) =~= seq![
                            crate::coins::CoinV {
                                denom: old(state).inflation.funds->0@.denom,
                                amount: coins@[0]@.amount,
                            },
                        ]);
                    }
                }
            },
        }
    }
    proof {
        assert(match old(state).config.incentive_module {
            Some(cfg) => if old(state).sm.total_staked > 0 {
                &&& state.incentives.last_id == old(state).incentives.last_id
                &&& exists|sel: Seq<usize>|
                    #[trigger] crate::incentive::is_stalest_selection(
                        old(state).incentives.incentives@,
                        cfg.crank_limit as int,
                        sel,
                    ) && crate::laws::distribute_step(
                        old(state).sm,
                        sm1v,
                        crate::incentive::crank_coins(old(state).incentives.incentives@, sel, now),
                    ) && crate::incentive::incs_like(
                        state.incentives.incentives@,
                        crate::incentive::crank_registry(
                            old(state).incentives.incentives@,
                            sel,
                            now,
                        ),
                    )
            } else {
                sm1v == old(state).sm && state.incentives == old(state).incentives
            },
            None => sm1v == old(state).sm && state.incentives == old(state).incentives,
        });
        assert(if underlying_runs(*old(state), *underlying_pending) {
            crate::laws::distribute_step(sm1v, sm2v, views(underlying_pending->0@))
        } else {
            sm2v == sm1v
        });
        assert(match old(state).config.inflation_module {
            Some(cfg) => {
                &&& state.inflation.last_update == Some(now)
                &&& {
                    let emit = crate::inflation::crank_emission(
                        old(state).inflation,
                        sm2v.total_staked as int,
                        cfg.rate_per_year.num(),
                        now,
                    );
                    if emit > 0 {
                        &&& old(state).inflation.funds is Some
                        &&& crate::laws::distribute_step(
                            sm2v,
                            state.sm,
                            seq![
                                crate::coins::CoinV {
                                    denom: old(state).inflation.funds->0@.denom,
                                    amount: emit,
                                },
                            ],
                        )
                        &&& (match state.inflation.funds {
                            None => old(state).inflation.funds->0@.amount - emit == 0,
                            Some(rem) => rem@.denom == old(state).inflation.funds->0@.denom
                                && rem@.amount == old(state).inflation.funds->0@.amount - emit,
                        })
                    } else {
                        state.sm == sm2v && state.inflation.funds == old(state).inflation.funds
                    }
                }
            },
            None => state.sm == sm2v && state.inflation == old(state).inflation,
        });
        assert(drain_steps(
            *old(state),
            *state,
            sm1v,
            sm2v,
            now,
            *underlying_pending,
        ));
        assert(drained(*old(state), *state, now, *underlying_pending, messages@));
    }
    Ok(messages)
}

/// How one reward operation relates the drained state to the final one:
/// the configured weight source and payment shape decide the coin, and
/// the operation's own outcome does the rest; the other modules are
/// untouched.
pub open spec fn rewards_applied(
    mid: ContractState,
    fin: ContractState,
    info: MsgInfo,
    rmsg: RewardsMsg,
    r: Result<Response, RewardsError>,
) -> bool {
    &&& fin.config == mid.config
    &&& fin.incentives == mid.incentives
    &&& fin.inflation == mid.inflation
    &&& match rmsg {
        RewardsMsg::Stake(m) => match mid.config.staking_module {
            StakingConfig::NativeToken { denom } => {
                if info.funds@.len() == 0 || (info.funds@.len() == 1 && info.funds@[0]@.amount
                    == 0) {
                    r == Err::<Response, RewardsError>(RewardsError::NoFunds) && fin.sm == mid.sm
                } else if info.funds@.len() > 1 {
                    r == Err::<Response, RewardsError>(RewardsError::MultipleDenoms) && fin.sm
                        == mid.sm
                } else if info.funds@[0]@.denom != denom@ {
                    r == Err::<Response, RewardsError>(RewardsError::MissingDenom) && fin.sm
                        == mid.sm
                } else {
                    stake_outcome(
                        mid.sm,
                        fin.sm,
                        info.sender@,
                        crate::coins::CoinV { denom: denom@, amount: info.funds@[0]@.amount },
                        m,
                        r,
                    )
                }
            },
            _ => r == Err::<Response, RewardsError>(RewardsError::InvalidStakingConfig) && fin.sm
                == mid.sm,
        },
        RewardsMsg::Unstake(m) => match mid.config.staking_module {
            StakingConfig::NativeToken { denom } => unstake_outcome(
                mid.sm,
                fin.sm,
                info.sender@,
                denom@,
                m,
                r,
            ),
            _ => r == Err::<Response, RewardsError>(RewardsError::InvalidStakingConfig) && fin.sm
                == mid.sm,
        },
        RewardsMsg::ClaimRewards(m) => claim_outcome(mid.sm, fin.sm, info.sender@, m, r),
        RewardsMsg::DistributeRewards(m) => {
            if info.funds@.len() == 0 {
                r == Err::<Response, RewardsError>(RewardsError::ZeroRewards) && fin.sm == mid.sm
            } else {
                match mid.config.distribution_module {
                    None => r == Err::<Response, RewardsError>(
                        RewardsError::DistributionNotEnabled,
                    ) && fin.sm == mid.sm,
                    Some(dc) => {
                        if !(forall|i: int|
                            0 <= i < info.funds@.len() ==> dc.whitelisted_denoms.allows(
                                (#[trigger] info.funds@[i])@.denom,
                            )) {
                            r == Err::<Response, RewardsError>(RewardsError::RewardNotWhitelisted)
                                && fin.sm == mid.sm
                        } else {
                            distribute_outcome(
                                mid.sm,
                                fin.sm,
                                info.sender@,
                                views(info.funds@),
                                dc.fees@,
                                m,
                                r,
                            )
                        }
                    },
                }
            }
        },
    }
}

/// Dispatches one operation against the whole contract state, exactly
/// as the host would: reward operations first drain the time-based
/// sources and then apply their primary effect, owner-gated operations
/// check the sender, hook operations check their configured source. On
/// any failure the state is the caller's to roll back (the host aborts
/// the transaction).
///
/// `underlying_pending` carries what the host pre-queried from the
/// underlying rewards contract, when that module is configured.
#[verifier::rlimit(100)]
#[verifier::spinoff_prover]
pub fn execute(
    state: &mut ContractState,
    info: MsgInfo,
    now: u64,
    underlying_pending: Option<Vec<Coin>>,
    msg: ExecuteMsg,
) -> (r: Result<Response, RewardsError>)
    requires
        old(state).wf(),
        old(state).inflation.last_update matches Some(t) ==> t <= now,
    ensures
        final(state).wf(),
        match msg {
            ExecuteMsg::Rewards(rmsg) => r matches Ok(res) ==> exists|
                mid: ContractState,
                pre_msgs: Seq<OutMsg>,
                op: Response,
            |
                #![trigger drained(*old(state), mid, now, underlying_pending, pre_msgs),
                    rewards_applied(mid, *final(state), info, rmsg, Ok(op))]
                {
                    &&& drained(*old(state), mid, now, underlying_pending, pre_msgs)
                    &&& rewards_applied(mid, *final(state), info, rmsg, Ok(op))
                    &&& res.messages@ == pre_msgs + op.messages@
                    &&& res.events@ == op.events@
                },
            ExecuteMsg::StakeChangeHook(..) => {
                &&& (!(old(state).config.staking_module is DaoDaoHook) ==> r == Err::<
                    Response,
                    RewardsError,
                >(RewardsError::InvalidStakingConfig))
                &&& ((old(state).config.staking_module matches StakingConfig::DaoDaoHook {
                    daodao_addr,
                } && info.sender@ != daodao_addr@) ==> r == Err::<Response, RewardsError>(
                    RewardsError::Unauthorized,
                ))
            },
            ExecuteMsg::MemberChangedHook(..) => {
                &&& (!(old(state).config.staking_module is Cw4Hook) ==> r == Err::<
                    Response,
                    RewardsError,
                >(RewardsError::InvalidStakingConfig))
                &&& ((old(state).config.staking_module matches StakingConfig::Cw4Hook { cw4_addr }
                    && info.sender@ != cw4_addr@) ==> r == Err::<Response, RewardsError>(
                    RewardsError::Unauthorized,
                ))
            },
            ExecuteMsg::AddIncentive { .. } => old(state).config.incentive_module is None ==> r
                == Err::<Response, RewardsError>(RewardsError::IncentivesNotEnabled),
            ExecuteMsg::FundInflation => {
                &&& (info.sender@ != old(state).config.owner@ ==> r == Err::<
                    Response,
                    RewardsError,
                >(RewardsError::Unauthorized))
                &&& ((info.sender@ == old(state).config.owner@ && old(
                    state,
                ).config.inflation_module is None) ==> r == Err::<Response, RewardsError>(
                    RewardsError::InflationNotEnabled,
                ))
            },
            ExecuteMsg::WithdrawInflation { .. } => {
                &&& (info.sender@ != old(state).config.owner@ ==> r == Err::<
                    Response,
                    RewardsError,
                >(RewardsError::Unauthorized))
                &&& ((info.sender@ == old(state).config.owner@ && old(
                    state,
                ).config.inflation_module is None) ==> r == Err::<Response, RewardsError>(
                    RewardsError::InflationNotEnabled,
                ))
            },
            ExecuteMsg::UpdateConfig(..) => info.sender@ != old(state).config.owner@ ==> r
                == Err::<Response, RewardsError>(RewardsError::Unauthorized),
            ExecuteMsg::AdjustWeights { .. } => {
                &&& (!(old(state).config.staking_module is Permissioned) ==> r == Err::<
                    Response,
                    RewardsError,
                >(RewardsError::InvalidStakingConfig))
                &&& ((old(state).config.staking_module is Permissioned && info.sender@ != old(
                    state,
                ).config.owner@) ==> r == Err::<Response, RewardsError>(
                    RewardsError::Unauthorized,
                ))
            },
        },
{
    match msg {
        ExecuteMsg::Rewards(rmsg) => {
            let pre_msgs = match pre_drain(state, now, &underlying_pending) {
                Err(e) => {
                    return Err(e);
                },
                Ok(m) => m,
            };
            let ghost midst = *state;
            let res = match rmsg {
                RewardsMsg::Stake(m) => {
                    let denom = match &state.config.staking_module {
                        StakingConfig::NativeToken { denom } => denom.clone(),
                        _ => {
                            return Err(RewardsError::InvalidStakingConfig);
                        },
                    };
                    proof {
                        assert(midst.config.staking_module is NativeToken);
                        assert(denom@ == midst.config.staking_module->NativeToken_denom@);
                    }
                    let received = match must_pay(&info.funds, &denom) {
                        Err(e) => {
                            return Err(e);
                        },
                        Ok(a) => a,
                    };
                    stake_op(&mut state.sm, &info.sender, Coin { denom, amount: received }, m)
                },
                RewardsMsg::Unstake(m) => {
                    let denom = match &state.config.staking_module {
                        StakingConfig::NativeToken { denom } => denom.clone(),
                        _ => {
                            return Err(RewardsError::InvalidStakingConfig);
                        },
                    };
                    proof {
                        assert(midst.config.staking_module is NativeToken);
                        assert(denom@ == midst.config.staking_module->NativeToken_denom@);
                    }
                    unstake_op(&mut state.sm, &info.sender, &denom, m)
                },
                RewardsMsg::ClaimRewards(m) => claim_op(&mut state.sm, &info.sender, m),
                RewardsMsg::DistributeRewards(m) => {
                    if info.funds.len() == 0 {
                        return Err(RewardsError::ZeroRewards);
                    }
                    let fees = match &state.config.distribution_module {
                        None => {
                            return Err(RewardsError::DistributionNotEnabled);
                        },
                        Some(cfg) => {
                            let mut all_listed = true;
                            let mut i: usize = 0;
                            while i < info.funds.len()
                                invariant
                                    i <= info.funds@.len(),
                                    state.wf(),
                                    *state == midst,
                                    state.config.distribution_module matches Some(c2) && c2 == cfg,
                                    all_listed == (forall|k: int|
                                        0 <= k < i ==> cfg.whitelisted_denoms.allows(
                                            (#[trigger] info.funds@[k])@.denom,
                                        )),
                                decreases info.funds@.len() - i,
                            {
                                if !cfg.whitelisted_denoms.check(&info.funds[i].denom) {
                                    all_listed = false;
                                }
                                i = i + 1;
                            }
                            if !all_listed {
                                return Err(RewardsError::RewardNotWhitelisted);
                            }
                            proof {
                                assert(midst.config.distribution_module is Some);
                                assert(midst.config.distribution_module->0 == *cfg);
                            }
                            clone_fees(&cfg.fees)
                        },
                    };
                    proof {
                        let dcf = midst.config.distribution_module->0.fees@;
                        assert(crate::fees::fees_like(fees@, dcf));
                        crate::fees::lemma_split_like(views(info.funds@), fees@, dcf);
                        crate::fees::lemma_residual_like(views(info.funds@), fees@, dcf);
                        crate::fees::lemma_fee_cut_like(0, fees@, dcf);
                    }
                    distribute_op(&mut state.sm, &info.sender, info.funds, &fees, m)
                },
            };
            match res {
                Err(e) => Err(e),
                Ok(op) => {
                    let ghost op0 = op;
                    let Response { messages: op_msgs, events } = op;
                    // underlying claims are scheduled ahead of the payouts
                    let mut all: Vec<OutMsg> = pre_msgs;
                    let ghost pre0 = all@;
                    let mut rest = op_msgs;
                    let ghost rest0 = rest@;
                    let n1: usize = rest.len();
                    let mut moved: usize = 0;
                    while rest.len() > 0
                        invariant
                            moved + rest@.len() == n1,
                            rest0.len() == n1,
                            all@ == pre0 + rest0.take(moved as int),
                            forall|x: int| 0 <= x < rest@.len() ==> (#[trigger] rest@[x]) == rest0[
                                moved + x],
                        decreases rest@.len(),
                    {
                        let ghost restpre = rest@;
                        let m0 = rest.remove(0);
                        proof {
                            assert(m0 == rest0[moved as int]);
                            assert(forall|x: int|
                                0 <= x < rest@.len() ==> (#[trigger] rest@[x]) == restpre[x + 1]);
                        }
                        all.push(m0);
                        proof {
                            assert(all@ =~= pre0 + rest0.take(moved + 1));
                        }
                        moved = moved + 1;
                    }
                    proof {
                        assert(rest0.take(rest0.len() as int) =~= rest0);
                        assert(all@ == pre0 + rest0);
                    }
                    let merged = Response { messages: all, events };
                    proof {
                        assert(rewards_applied(midst, *state, info, rmsg, Ok(op0)));
                        assert(drained(*old(state), midst, now, underlying_pending, pre0));
                        assert(merged.messages@ == pre0 + op0.messages@ && merged.events@
                            == op0.events@);
                    }
                    Ok(merged)
                },
            }
        },
        ExecuteMsg::StakeChangeHook(hook) => {
            let src = match &state.config.staking_module {
                StakingConfig::DaoDaoHook { daodao_addr } => daodao_addr.clone(),
                _ => {
                    return Err(RewardsError::InvalidStakingConfig);
                },
            };
            if !crate::denoms::str_eq(info.sender.as_str(), src.as_str()) {
                return Err(RewardsError::Unauthorized);
            }
            let outcome = match hook {
                StakeChangedHookMsg::Stake { addr, amount } => state.sm.increase_weight(
                    &addr,
                    amount,
                    false,
                ),
                StakeChangedHookMsg::Unstake { addr, amount } => state.sm.decrease_weight(
                    &addr,
                    amount,
                    false,
                ),
            };
            match outcome {
                Err(e) => Err(e),
                Ok(_) => Ok(simple_response("rewards/update-weight-hook")),
            }
        },
        ExecuteMsg::MemberChangedHook(hook) => {
            let src = match &state.config.staking_module {
                StakingConfig::Cw4Hook { cw4_addr } => cw4_addr.clone(),
                _ => {
                    return Err(RewardsError::InvalidStakingConfig);
                },
            };
            if !crate::denoms::str_eq(info.sender.as_str(), src.as_str()) {
                return Err(RewardsError::Unauthorized);
            }
            proof {
                assert(src@ == old(state).config.staking_module->Cw4Hook_cw4_addr@);
            }
            let mut attributes: Vec<(String, AttrVal)> = Vec::new();
            let mut diffs = hook.diffs;
            while diffs.len() > 0
                invariant
                    state.wf(),
                    msg is MemberChangedHook,
                    old(state).config.staking_module is Cw4Hook,
                    info.sender@ == old(state).config.staking_module->Cw4Hook_cw4_addr@,
                decreases diffs@.len(),
            {
                let d = diffs.remove(0);
                let weight: u128 = match d.new_weight {
                    Some(w) => w as u128,
                    None => 0,
                };
                match state.sm.set_weight(&d.key, weight, false) {
                    Err(e) => {
                        return Err(e);
                    },
                    Ok(_) => {},
                }
                attributes.push((new_string("staker"), AttrVal::Text(d.key)));
                attributes.push((new_string("weight"), AttrVal::Amount(weight)));
            }
            let event = Event {
                namespace: new_string("rewards"),
                action: new_string("rewards/update-weights-hook"),
                attributes,
            };
            let mut events: Vec<Event> = Vec::new();
            events.push(event);
            Ok(Response { messages: Vec::new(), events })
        },
        ExecuteMsg::AddIncentive { denom, schedule } => {
            let cfg = match &state.config.incentive_module {
                None => {
                    return Err(RewardsError::IncentivesNotEnabled);
                },
                Some(c) => c,
            };
            let sent = match &cfg.fee {
                None => info.funds,
                Some(fee) => {
                    match sub_first_coin(&info.funds, fee) {
                        Err(e) => {
                            return Err(e);
                        },
                        Ok(v) => v,
                    }
                },
            };
            if sent.len() != 1 {
                return Err(RewardsError::InvalidIncentive);
            }
            if sent[0].amount < cfg.min_size {
                return Err(RewardsError::InvalidIncentive);
            }
            if !crate::denoms::str_eq(sent[0].denom.as_str(), denom.as_str()) {
                return Err(RewardsError::InvalidIncentive);
            }
            if !cfg.whitelisted_denoms.check(&denom) {
                return Err(RewardsError::InvalidIncentive);
            }
            // reject schedules the host's release computation is not
            // defined on
            if schedule.start / crate::incentive::NANOS_PER_SECOND >= schedule.end
                / crate::incentive::NANOS_PER_SECOND {
                return Err(RewardsError::InvalidIncentive);
            }
            match schedule.release {
                crate::incentive::Release::Fixed => {},
                crate::incentive::Release::Decay => {
                    let window = schedule.end / crate::incentive::NANOS_PER_SECOND - schedule.start
                        / crate::incentive::NANOS_PER_SECOND;
                    if schedule.amount == 0 || schedule.amount > u128::MAX / 2 {
                        return Err(RewardsError::InvalidIncentive);
                    }
                    if window >= 0x1_0000_0000 {
                        return Err(RewardsError::InvalidIncentive);
                    }
                    proof {
                        assert((window as int) * (window as int) < 0x1_0000_0000_0000_0000int)
                            by (nonlinear_arith)
                            requires
                                0 <= window < 0x1_0000_0000,
                        ;
                    }
                    let square = (window as u128) * (window as u128);
                    proof {
                        assert(square as int * (FRAC_UNIT as int) <= u128::MAX)
                            by (nonlinear_arith)
                            requires
                                0 <= square < 0x1_0000_0000_0000_0000,
                                FRAC_UNIT == 1_000_000_000_000_000_000u128,
                        ;
                    }
                    if schedule.amount > square * FRAC_UNIT {
                        return Err(RewardsError::InvalidIncentive);
                    }
                    proof {
                        assert((window as int) * (window as int) * (FRAC_UNIT as int)
                            == square as int * (FRAC_UNIT as int)) by (nonlinear_arith)
                            requires
                                square == (window as int) * (window as int),
                        ;
                    }
                },
            }
            match state.incentives.register(&mut state.sm, denom, schedule, now) {
                Err(e) => Err(e),
                Ok(()) => Ok(simple_response("rewards/add-incentive")),
            }
        },
        ExecuteMsg::FundInflation => {
            if !crate::denoms::str_eq(info.sender.as_str(), state.config.owner.as_str()) {
                return Err(RewardsError::Unauthorized);
            }
            if state.config.inflation_module.is_none() {
                return Err(RewardsError::InflationNotEnabled);
            }
            let funds = match one_coin(&info.funds) {
                Err(e) => {
                    return Err(e);
                },
                Ok(c) => c,
            };
            match state.inflation.fund(funds) {
                Err(e) => Err(e),
                Ok(()) => Ok(simple_response("rewards/fund-inflation")),
            }
        },
        ExecuteMsg::WithdrawInflation { amount } => {
            if !crate::denoms::str_eq(info.sender.as_str(), state.config.owner.as_str()) {
                return Err(RewardsError::Unauthorized);
            }
            let rate = match &state.config.inflation_module {
                None => {
                    return Err(RewardsError::InflationNotEnabled);
                },
                Some(cfg) => cfg.rate_per_year,
            };
            let total = state.sm.total_staked();
            match state.inflation.withdraw(total, rate, now, amount) {
                Err(e) => Err(e),
                Ok(coin) => {
                    let mut messages: Vec<OutMsg> = Vec::new();
                    let mut amount_list: Vec<Coin> = Vec::new();
                    amount_list.push(coin);
                    messages.push(
                        OutMsg::Send { to_address: info.sender, amount: amount_list },
                    );
                    let events: Vec<Event> = Vec::new();
                    Ok(Response { messages, events })
                },
            }
        },
        ExecuteMsg::AdjustWeights { delta } => {
            match &state.config.staking_module {
                StakingConfig::Permissioned => {},
                _ => {
                    return Err(RewardsError::InvalidStakingConfig);
                },
            }
            if !crate::denoms::str_eq(info.sender.as_str(), state.config.owner.as_str()) {
                return Err(RewardsError::Unauthorized);
            }
            let mut rest = delta;
            while rest.len() > 0
                invariant
                    state.wf(),
                    msg is AdjustWeights,
                    old(state).config.staking_module is Permissioned,
                    info.sender@ == old(state).config.owner@,
                decreases rest@.len(),
            {
                let (addr, weight) = rest.remove(0);
                match state.sm.set_weight(&addr, weight, false) {
                    Err(e) => {
                        return Err(e);
                    },
                    Ok(_) => {},
                }
            }
            Ok(simple_response("rewards/adjust-weights"))
        },
        ExecuteMsg::UpdateConfig(update) => {
            if !crate::denoms::str_eq(info.sender.as_str(), state.config.owner.as_str()) {
                return Err(RewardsError::Unauthorized);
            }
            // enabling inflation stamps the clock so nothing is owed
            // retroactively
            let enabling = state.config.inflation_module.is_none() && (match &update.inflation_cfg {
                Some(u) => u.update.is_some(),
                None => false,
            });
            // a fee table over one whole unit is refused up front
            match &update.distribution_cfg {
                Some(u) => match &u.update {
                    Some(dc) => {
                        if !fees_within_unit(&dc.fees) {
                            return Err(RewardsError::InvalidStakingConfig);
                        }
                    },
                    None => {},
                },
                None => {},
            }
            if enabling {
                state.inflation.last_update = Some(now);
            }
            state.config.apply_update(update);
            Ok(simple_response("rewards/update-config"))
        },
    }
}


/// Whether a fee table's rates sum to at most one whole unit.
#[verifier::spinoff_prover]
fn fees_within_unit(fees: &Vec<(crate::rates::Rate, String)>) -> (r: bool)
    ensures
        r == (rate_sum(fees@) <= FRAC_UNIT as int),
{
    let mut total: u128 = 0;
    let mut i: usize = 0;
    proof {
        assert(fees@.take(0) =~= Seq::<(crate::rates::Rate, String)>::empty());
    }
    while i < fees.len()
        invariant
            i <= fees@.len(),
            total as int == rate_sum(fees@.take(i as int)),
            total <= FRAC_UNIT,
        decreases fees@.len() - i,
    {
        proof {
            crate::fees::lemma_rate_take_snoc(fees@, i as int);
        }
        let a = fees[i].0.atomics;
        if a > FRAC_UNIT - total {
            proof {
                crate::fees::lemma_rate_prefix_le(fees@, i + 1);
            }
            return false;
        }
        total = total + a;
        i = i + 1;
    }
    proof {
        assert(fees@.take(fees@.len() as int) =~= fees@);
    }
    true
}

/// A response with one namespaced event and nothing else.
#[verifier::spinoff_prover]
fn simple_response(action: &str) -> (r: Response)
    ensures
        r.messages@.len() == 0,
        r.events@.len() == 1,
        r.events@[0].action@ == action@,
{
    let mut events: Vec<Event> = Vec::new();
    events.push(
        Event {
            namespace: new_string("rewards"),
            action: action.to_owned(),
            attributes: Vec::new(),
        },
    );
    Response { messages: Vec::new(), events }
}

/// An owned copy of a fee table.
#[verifier::spinoff_prover]
fn clone_fees(fees: &Vec<(crate::rates::Rate, String)>) -> (r: Vec<(crate::rates::Rate, String)>)
    ensures
        crate::fees::fees_like(r@, fees@),
        rate_sum(r@) == rate_sum(fees@),
{
    let mut out: Vec<(crate::rates::Rate, String)> = Vec::new();
    let mut i: usize = 0;
    while i < fees.len()
        invariant
            i <= fees@.len(),
            out@.len() == i,
            forall|k: int|
                0 <= k < i ==> (#[trigger] out@[k]).0 == fees@[k].0 && out@[k].1@ == fees@[k].1@,
        decreases fees@.len() - i,
    {
        out.push((fees[i].0, fees[i].1.clone()));
        i = i + 1;
    }
    proof {
        lemma_rate_sum_congruent(out@, fees@);
    }
    out
}

/// Fee tables with the same rates carry the same sum.
#[verifier::spinoff_prover]
proof fn lemma_rate_sum_congruent(a: Seq<(crate::rates::Rate, String)>, b: Seq<(crate::rates::Rate, String)>)
    requires
        a.len() == b.len(),
        forall|i: int| 0 <= i < a.len() ==> (#[trigger] a[i]).0 == b[i].0,
    ensures
        rate_sum(a) == rate_sum(b),
    decreases a.len(),
{
    if a.len() > 0 {
        assert(forall|i: int| 0 <= i < a.skip(1).len() ==> (#[trigger] a.skip(1)[i]) == a[i + 1]);
        assert(forall|i: int| 0 <= i < b.skip(1).len() ==> (#[trigger] b.skip(1)[i]) == b[i + 1]);
        lemma_rate_sum_congruent(a.skip(1), b.skip(1));
    }
}

} // verus!
