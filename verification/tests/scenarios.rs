use stake_rewards::coins::Coin;
use stake_rewards::errors::RewardsError;
use stake_rewards::config::{
    Config, DistributionConfig, IncentiveConfig, InflationConfig, StakingConfig, Whitelist,
};
use stake_rewards::contract::{
    execute, ClaimRewardsMsg, ContractState, DistributeRewardsMsg, ExecuteMsg, MsgInfo, OutMsg,
    RewardsMsg, StakeMsg,
};
use stake_rewards::incentive::{Release, Schedule, NANOS_PER_SECOND};
use stake_rewards::inflation::YEAR_SECONDS;
use stake_rewards::query::pending_rewards;
use stake_rewards::rates::Rate;

fn coin(amount: u128, denom: &str) -> Coin {
    Coin { denom: denom.to_string(), amount }
}

fn base_config() -> Config {
    Config {
        owner: "owner".to_string(),
        staking_module: StakingConfig::NativeToken { denom: "TOKEN".to_string() },
        incentive_module: None,
        distribution_module: Some(DistributionConfig {
            fees: vec![],
            whitelisted_denoms: Whitelist::All,
        }),
        underlying_rewards_module: None,
        inflation_module: None,
    }
}

fn info(sender: &str, funds: Vec<Coin>) -> MsgInfo {
    MsgInfo { sender: sender.to_string(), funds }
}

fn stake(state: &mut ContractState, now: u64, who: &str, amount: u128) {
    execute(
        state,
        info(who, vec![coin(amount, "TOKEN")]),
        now,
        None,
        ExecuteMsg::Rewards(RewardsMsg::Stake(StakeMsg { withdraw_rewards: false, callback: None })),
    )
    .expect("stake works");
}

fn distribute(state: &mut ContractState, now: u64, funds: Vec<Coin>) {
    execute(
        state,
        info("admin", funds),
        now,
        None,
        ExecuteMsg::Rewards(RewardsMsg::DistributeRewards(DistributeRewardsMsg {
            callback: None,
        })),
    )
    .expect("distribute works");
}

fn pending(state: &ContractState, now: u64, who: &str) -> Vec<(String, u128)> {
    pending_rewards(state, &who.to_string(), now, &None)
        .expect("pending works")
        .iter()
        .map(|c| (c.denom.clone(), c.amount))
        .collect()
}

fn sent_amounts(msgs: &Vec<OutMsg>) -> Vec<(String, u128)> {
    let mut out = vec![];
    for m in msgs {
        if let OutMsg::Send { amount, .. } = m {
            for c in amount {
                out.push((c.denom.clone(), c.amount));
            }
        }
    }
    out
}

#[test]
fn even_split() {
    let mut state = ContractState::instantiate(base_config(), 0);
    stake(&mut state, 0, "aaa", 150);
    stake(&mut state, 0, "bbb", 50);
    distribute(&mut state, 0, vec![coin(1000, "TOKEN")]);

    assert_eq!(pending(&state, 0, "aaa"), vec![("TOKEN".to_string(), 750)]);
    assert_eq!(pending(&state, 0, "bbb"), vec![("TOKEN".to_string(), 250)]);

    let res = execute(
        &mut state,
        info("aaa", vec![]),
        0,
        None,
        ExecuteMsg::Rewards(RewardsMsg::ClaimRewards(ClaimRewardsMsg { callback: None })),
    )
    .expect("claim works");
    assert_eq!(sent_amounts(&res.messages), vec![("TOKEN".to_string(), 750)]);

    assert_eq!(pending(&state, 0, "aaa"), vec![]);
    assert_eq!(pending(&state, 0, "bbb"), vec![("TOKEN".to_string(), 250)]);
}

#[test]
fn inline_withdraw_on_stake() {
    let mut state = ContractState::instantiate(base_config(), 0);
    stake(&mut state, 0, "aaa", 150);
    stake(&mut state, 0, "bbb", 50);
    distribute(&mut state, 0, vec![coin(1000, "TOKEN")]);
    assert_eq!(pending(&state, 0, "aaa"), vec![("TOKEN".to_string(), 750)]);

    // restaking with an inline withdrawal pays the accrued rewards out
    let res = execute(
        &mut state,
        info("aaa", vec![coin(150, "TOKEN")]),
        0,
        None,
        ExecuteMsg::Rewards(RewardsMsg::Stake(StakeMsg { withdraw_rewards: true, callback: None })),
    )
    .expect("stake works");
    assert_eq!(sent_amounts(&res.messages), vec![("TOKEN".to_string(), 750)]);

    distribute(&mut state, 0, vec![coin(1000, "TOKEN")]);
    // 300 of 350 weight now: floor(300 * floor(1000/350 scaled)) = 857
    assert_eq!(pending(&state, 0, "aaa"), vec![("TOKEN".to_string(), 857)]);
    // 250 kept + floor(50 * the same index step) = 250 + 142
    assert_eq!(pending(&state, 0, "bbb"), vec![("TOKEN".to_string(), 392)]);
}

fn incentive_config(crank_limit: usize) -> Config {
    let mut cfg = base_config();
    cfg.incentive_module = Some(IncentiveConfig {
        crank_limit,
        min_size: 100,
        fee: Some(coin(100, "TOKEN")),
        whitelisted_denoms: Whitelist::All,
    });
    cfg
}

#[test]
fn incentive_linear_release() {
    let mut state = ContractState::instantiate(incentive_config(10), 0);
    let t0 = 1_000_000_000u64 * NANOS_PER_SECOND;
    stake(&mut state, t0, "aaa", 150);
    stake(&mut state, t0, "bbb", 50);

    execute(
        &mut state,
        info("admin", vec![coin(1000, "OTHER"), coin(100, "TOKEN")]),
        t0,
        None,
        ExecuteMsg::AddIncentive {
            denom: "OTHER".to_string(),
            schedule: Schedule {
                start: t0,
                end: t0 + 60 * NANOS_PER_SECOND,
                amount: 1000,
                release: Release::Fixed,
            },
        },
    )
    .expect("incentive works");

    let t30 = t0 + 30 * NANOS_PER_SECOND;
    assert_eq!(pending(&state, t30, "aaa"), vec![("OTHER".to_string(), 375)]);
    assert_eq!(pending(&state, t30, "bbb"), vec![("OTHER".to_string(), 125)]);

    let t60 = t0 + 60 * NANOS_PER_SECOND;
    assert_eq!(pending(&state, t60, "aaa"), vec![("OTHER".to_string(), 750)]);
    assert_eq!(pending(&state, t60, "bbb"), vec![("OTHER".to_string(), 250)]);
}

#[test]
fn crank_limit_reveals_incentives_in_waves() {
    let mut state = ContractState::instantiate(incentive_config(2), 0);
    let t0 = 1_000_000_000u64 * NANOS_PER_SECOND;
    stake(&mut state, t0, "aaa", 100);

    for i in 0..5u32 {
        let denom = format!("REWARD{}", i);
        execute(
            &mut state,
            info("admin", vec![coin(1000, &denom), coin(100, "TOKEN")]),
            t0,
            None,
            ExecuteMsg::AddIncentive {
                denom: denom.clone(),
                schedule: Schedule {
                    start: t0,
                    end: t0 + 3600 * NANOS_PER_SECOND,
                    amount: 1000,
                    release: Release::Fixed,
                },
            },
        )
        .expect("incentive works");
    }

    let t30 = t0 + 1800 * NANOS_PER_SECOND;
    // only the first two incentives are visible under the crank limit
    assert_eq!(
        pending(&state, t30, "aaa"),
        vec![("REWARD0".to_string(), 500), ("REWARD1".to_string(), 500)]
    );

    // any operation cranks those two, revealing the next two
    execute(
        &mut state,
        info("aaa", vec![]),
        t30,
        None,
        ExecuteMsg::Rewards(RewardsMsg::ClaimRewards(ClaimRewardsMsg { callback: None })),
    )
    .expect("claim works");
    assert_eq!(
        pending(&state, t30, "aaa"),
        vec![("REWARD2".to_string(), 500), ("REWARD3".to_string(), 500)]
    );
}

#[test]
fn fee_split_on_distribution() {
    let mut cfg = base_config();
    cfg.distribution_module = Some(DistributionConfig {
        fees: vec![
            (Rate::percent(10), "feeaddr".to_string()),
            (Rate::percent(10), "feeaddr".to_string()),
        ],
        whitelisted_denoms: Whitelist::All,
    });
    let mut state = ContractState::instantiate(cfg, 0);
    stake(&mut state, 0, "aaa", 100);

    let res = execute(
        &mut state,
        info("admin", vec![coin(1000, "TOKEN")]),
        0,
        None,
        ExecuteMsg::Rewards(RewardsMsg::DistributeRewards(DistributeRewardsMsg {
            callback: None,
        })),
    )
    .expect("distribute works");
    assert_eq!(
        sent_amounts(&res.messages),
        vec![("TOKEN".to_string(), 100), ("TOKEN".to_string(), 100)]
    );

    assert_eq!(pending(&state, 0, "aaa"), vec![("TOKEN".to_string(), 800)]);

    let res = execute(
        &mut state,
        info("aaa", vec![]),
        0,
        None,
        ExecuteMsg::Rewards(RewardsMsg::ClaimRewards(ClaimRewardsMsg { callback: None })),
    )
    .expect("claim works");
    assert_eq!(sent_amounts(&res.messages), vec![("TOKEN".to_string(), 800)]);
}

#[test]
fn inflation_half_year() {
    let mut cfg = base_config();
    cfg.inflation_module = Some(InflationConfig { rate_per_year: Rate::percent(10) });
    let t0 = 1_000_000u64 * NANOS_PER_SECOND;
    let mut state = ContractState::instantiate(cfg, t0);

    execute(
        &mut state,
        info("owner", vec![coin(1000, "TOKEN")]),
        t0,
        None,
        ExecuteMsg::FundInflation,
    )
    .expect("fund works");

    stake(&mut state, t0, "aaa", 500);
    stake(&mut state, t0, "bbb", 300);

    let t_half = t0 + (YEAR_SECONDS / 2) * NANOS_PER_SECOND;
    // pending = floor(800 * 10% * 1/2) = 40, split 500:300
    assert_eq!(pending(&state, t_half, "aaa"), vec![("TOKEN".to_string(), 25)]);
    assert_eq!(pending(&state, t_half, "bbb"), vec![("TOKEN".to_string(), 15)]);

    // any operation cranks the emission; the reserve keeps the rest
    execute(
        &mut state,
        info("aaa", vec![]),
        t_half,
        None,
        ExecuteMsg::Rewards(RewardsMsg::ClaimRewards(ClaimRewardsMsg { callback: None })),
    )
    .expect("claim works");
    let funds = state.inflation.funds.clone().expect("reserve stays");
    assert_eq!(funds.amount, 960);
    assert_eq!(funds.denom, "TOKEN");
}

#[test]
fn inflation_withdraw_respects_pending_share() {
    let mut cfg = base_config();
    cfg.inflation_module = Some(stake_rewards::config::InflationConfig {
        rate_per_year: Rate::percent(10),
    });
    let t0 = 1_000_000u64 * NANOS_PER_SECOND;
    let mut state = ContractState::instantiate(cfg, t0);
    execute(
        &mut state,
        info("owner", vec![coin(1000, "TOKEN")]),
        t0,
        None,
        ExecuteMsg::FundInflation,
    )
    .expect("fund works");
    stake(&mut state, t0, "aaa", 800);

    // six months in, 40 are already owed to the stakers: only 960 may leave
    let t_half = t0 + (YEAR_SECONDS / 2) * NANOS_PER_SECOND;
    let res = execute(
        &mut state,
        info("owner", vec![]),
        t_half,
        None,
        ExecuteMsg::WithdrawInflation { amount: 961 },
    );
    assert_eq!(expect_err(res), RewardsError::InsufficientInflation);

    let res = execute(
        &mut state,
        info("owner", vec![]),
        t_half,
        None,
        ExecuteMsg::WithdrawInflation { amount: 960 },
    )
    .expect("withdraw works");
    assert_eq!(sent_amounts(&res.messages), vec![("TOKEN".to_string(), 960)]);

    // the pending 40 still reach the stakers on the next crank
    assert_eq!(pending(&state, t_half, "aaa"), vec![("TOKEN".to_string(), 40)]);
}

#[test]
fn owner_gates_hold() {
    let mut state = ContractState::instantiate(base_config(), 0);
    let res = execute(
        &mut state,
        info("mallory", vec![coin(5, "TOKEN")]),
        0,
        None,
        ExecuteMsg::FundInflation,
    );
    assert_eq!(expect_err(res), RewardsError::Unauthorized);
    let res = execute(
        &mut state,
        info("mallory", vec![]),
        0,
        None,
        ExecuteMsg::AdjustWeights { delta: vec![("aaa".to_string(), 5)] },
    );
    assert_eq!(expect_err(res), RewardsError::InvalidStakingConfig);
}

#[test]
fn registered_incentive_clock_starts_at_schedule_start() {
    let mut state = ContractState::instantiate(incentive_config(10), 0);
    let t0 = 1_000u64 * NANOS_PER_SECOND;
    stake(&mut state, t0, "aaa", 100);
    // a future window releases nothing yet and is stored
    execute(
        &mut state,
        info("admin", vec![coin(1000, "LATER"), coin(100, "TOKEN")]),
        t0,
        None,
        ExecuteMsg::AddIncentive {
            denom: "LATER".to_string(),
            schedule: Schedule {
                start: t0 + 100 * NANOS_PER_SECOND,
                end: t0 + 200 * NANOS_PER_SECOND,
                amount: 1000,
                release: Release::Fixed,
            },
        },
    )
    .expect("incentive works");
    assert_eq!(state.incentives.incentives.len(), 1);
    assert_eq!(
        state.incentives.incentives[0].last_distributed,
        t0 + 100 * NANOS_PER_SECOND
    );
    assert_eq!(pending(&state, t0, "aaa"), vec![]);
    // half the window later, half is visible
    let t_mid = t0 + 150 * NANOS_PER_SECOND;
    assert_eq!(pending(&state, t_mid, "aaa"), vec![("LATER".to_string(), 500)]);
}

#[test]
fn decaying_incentive_is_accepted_and_bounded() {
    let mut state = ContractState::instantiate(incentive_config(10), 0);
    let t0 = 1_000u64 * NANOS_PER_SECOND;
    stake(&mut state, t0, "aaa", 100);
    execute(
        &mut state,
        info("admin", vec![coin(1000, "DROP"), coin(100, "TOKEN")]),
        t0,
        None,
        ExecuteMsg::AddIncentive {
            denom: "DROP".to_string(),
            schedule: Schedule {
                start: t0,
                end: t0 + 1000 * NANOS_PER_SECOND,
                amount: 1000,
                release: Release::Decay,
            },
        },
    )
    .expect("a computable decaying incentive is accepted");
    // a decaying release starts fast: after half the window more than
    // half is out, but never more than the scheduled amount here
    let p = pending(&state, t0 + 500 * NANOS_PER_SECOND, "aaa");
    assert_eq!(p.len(), 1);
    assert_eq!(p[0].0, "DROP");
    assert!(p[0].1 > 500 && p[0].1 <= 1000);
}

fn expect_err(
    r: Result<stake_rewards::contract::Response, RewardsError>,
) -> RewardsError {
    match r {
        Err(e) => e,
        Ok(_) => panic!("expected a failure"),
    }
}
