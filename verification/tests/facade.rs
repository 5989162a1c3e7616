use stake_rewards::coins::Coin;
use stake_rewards::config::{Config, DistributionConfig, StakingConfig, Whitelist};
use stake_rewards::contract::{
    execute, ClaimRewardsMsg, ContractState, DistributeRewardsMsg, ExecuteMsg, MsgInfo,
    RewardsMsg, StakeMsg, UnstakeMsg,
};
use stake_rewards::errors::RewardsError;

fn coin(amount: u128, denom: &str) -> Coin {
    Coin { denom: denom.to_string(), amount }
}

fn setup_contract() -> ContractState {
    let config = Config {
        owner: "sender".to_string(),
        staking_module: StakingConfig::NativeToken { denom: "tokens".to_string() },
        incentive_module: None,
        distribution_module: Some(DistributionConfig {
            fees: vec![],
            whitelisted_denoms: Whitelist::All,
        }),
        underlying_rewards_module: None,
        inflation_module: None,
    };
    ContractState::instantiate(config, 0)
}

fn info(sender: &str, funds: Vec<Coin>) -> MsgInfo {
    MsgInfo { sender: sender.to_string(), funds }
}

fn stake_msg() -> ExecuteMsg {
    ExecuteMsg::Rewards(RewardsMsg::Stake(StakeMsg { withdraw_rewards: false, callback: None }))
}

fn unstake_msg(amount: u128) -> ExecuteMsg {
    ExecuteMsg::Rewards(RewardsMsg::Unstake(UnstakeMsg {
        amount,
        withdraw_rewards: false,
        callback: None,
    }))
}

fn claim_msg() -> ExecuteMsg {
    ExecuteMsg::Rewards(RewardsMsg::ClaimRewards(ClaimRewardsMsg { callback: None }))
}

fn distribute_msg() -> ExecuteMsg {
    ExecuteMsg::Rewards(RewardsMsg::DistributeRewards(DistributeRewardsMsg { callback: None }))
}

#[test]
fn test_stake() {
    let mut state = setup_contract();
    execute(&mut state, info("sender", vec![coin(100, "tokens")]), 0, None, stake_msg()).unwrap();

    assert_eq!(state.sm.total_staked(), 100u128);
    assert_eq!(state.sm.get_weight(&"sender".to_string()), 100u128);
}

#[test]
fn test_unstake() {
    let mut state = setup_contract();
    execute(&mut state, info("sender", vec![coin(100, "tokens")]), 0, None, stake_msg()).unwrap();
    execute(&mut state, info("sender", vec![]), 0, None, unstake_msg(50)).unwrap();

    assert_eq!(state.sm.total_staked(), 50u128);
    assert_eq!(state.sm.get_weight(&"sender".to_string()), 50u128);
}

#[test]
fn test_claim_rewards() {
    let mut state = setup_contract();
    execute(&mut state, info("sender", vec![coin(100, "tokens")]), 0, None, stake_msg()).unwrap();
    execute(&mut state, info("sender", vec![coin(100, "tokens")]), 0, None, distribute_msg())
        .unwrap();
    execute(&mut state, info("sender", vec![]), 0, None, claim_msg()).unwrap();

    let accrued = state.sm.get_accrued(&"sender".to_string()).unwrap();
    assert!(accrued.is_empty());
}

#[test]
fn test_distribute_rewards() {
    let mut state = setup_contract();
    execute(&mut state, info("sender", vec![coin(100, "tokens")]), 0, None, stake_msg()).unwrap();
    execute(&mut state, info("sender", vec![coin(100, "tokens")]), 0, None, distribute_msg())
        .unwrap();

    // 100 distributed against 100 staked: one whole unit per weight
    let accrued = state.sm.get_accrued(&"sender".to_string()).unwrap();
    assert_eq!(accrued.len(), 1);
    assert_eq!(accrued[0].denom, "tokens");
    assert_eq!(accrued[0].amount, 100u128);
}

#[test]
fn test_stake_zero() {
    let mut state = setup_contract();
    let res = execute(&mut state, info("sender", vec![]), 0, None, stake_msg());
    assert_eq!(expect_err(res), RewardsError::NoFunds);

    assert_eq!(state.sm.total_staked(), 0u128);
    assert_eq!(state.sm.get_weight(&"sender".to_string()), 0u128);
}

#[test]
fn test_unstake_more_than_staked() {
    let mut state = setup_contract();
    execute(&mut state, info("sender", vec![coin(100, "tokens")]), 0, None, stake_msg()).unwrap();
    let res = execute(&mut state, info("sender", vec![]), 0, None, unstake_msg(150));
    assert_eq!(expect_err(res), RewardsError::Underflow);
}

#[test]
fn test_claim_without_staking() {
    let mut state = setup_contract();
    let res = execute(&mut state, info("sender", vec![]), 0, None, claim_msg());
    assert_eq!(expect_err(res), RewardsError::NoRewardsToClaim);
}

#[test]
fn test_distribute_without_staking() {
    let mut state = setup_contract();
    let res = execute(
        &mut state,
        info("sender", vec![coin(100, "tokens")]),
        0,
        None,
        distribute_msg(),
    );
    assert_eq!(expect_err(res), RewardsError::NoStake);
}

#[test]
fn test_unstake_zero() {
    let mut state = setup_contract();
    execute(&mut state, info("sender", vec![coin(100, "tokens")]), 0, None, stake_msg()).unwrap();
    let res = execute(&mut state, info("sender", vec![]), 0, None, unstake_msg(0));
    assert_eq!(expect_err(res), RewardsError::ZeroUnstake);
}

#[test]
fn test_multiple_stakes_same_user() {
    let mut state = setup_contract();
    execute(&mut state, info("sender", vec![coin(100, "tokens")]), 0, None, stake_msg()).unwrap();
    execute(&mut state, info("sender", vec![coin(100, "tokens")]), 0, None, stake_msg()).unwrap();

    assert_eq!(state.sm.total_staked(), 200u128);
    assert_eq!(state.sm.get_weight(&"sender".to_string()), 200u128);
}

#[test]
fn test_multiple_stakes_multiple_users() {
    let mut state = setup_contract();
    execute(&mut state, info("sender", vec![coin(100, "tokens")]), 0, None, stake_msg()).unwrap();
    execute(
        &mut state,
        info("another_sender", vec![coin(200, "tokens")]),
        0,
        None,
        stake_msg(),
    )
    .unwrap();

    assert_eq!(state.sm.total_staked(), 300u128);
    assert_eq!(state.sm.get_weight(&"sender".to_string()), 100u128);
    assert_eq!(state.sm.get_weight(&"another_sender".to_string()), 200u128);
}

#[test]
fn test_unstake_all() {
    let mut state = setup_contract();
    execute(&mut state, info("sender", vec![coin(100, "tokens")]), 0, None, stake_msg()).unwrap();
    execute(&mut state, info("sender", vec![]), 0, None, unstake_msg(100)).unwrap();

    assert_eq!(state.sm.total_staked(), 0u128);
    assert_eq!(state.sm.get_weight(&"sender".to_string()), 0u128);
}

#[test]
fn test_distribute_no_rewards() {
    let mut state = setup_contract();
    execute(&mut state, info("sender", vec![coin(100, "tokens")]), 0, None, stake_msg()).unwrap();
    let res = execute(&mut state, info("sender", vec![]), 0, None, distribute_msg());
    assert_eq!(expect_err(res), RewardsError::ZeroRewards);
}

#[test]
fn test_claim_after_unstake_all() {
    let mut state = setup_contract();
    execute(&mut state, info("sender", vec![coin(100, "tokens")]), 0, None, stake_msg()).unwrap();
    execute(&mut state, info("sender", vec![]), 0, None, unstake_msg(100)).unwrap();
    let res = execute(&mut state, info("sender", vec![]), 0, None, claim_msg());
    assert_eq!(expect_err(res), RewardsError::NoRewardsToClaim);
}

#[test]
fn test_claim_after_stake_distribute_unstake() {
    let mut state = setup_contract();
    execute(&mut state, info("sender", vec![coin(100, "tokens")]), 0, None, stake_msg()).unwrap();
    execute(&mut state, info("sender", vec![coin(100, "tokens")]), 0, None, distribute_msg())
        .unwrap();
    execute(&mut state, info("sender", vec![]), 0, None, unstake_msg(100)).unwrap();

    // the checkpoint row survives the unstake and still carries 100
    let accrued = state.sm.get_accrued(&"sender".to_string()).unwrap();
    assert_eq!(accrued.len(), 1);
    assert_eq!(accrued[0].amount, 100u128);

    execute(&mut state, info("sender", vec![]), 0, None, claim_msg()).unwrap();
    let accrued = state.sm.get_accrued(&"sender".to_string()).unwrap();
    assert!(accrued.is_empty());
    // the emptied row is pruned
    assert!(state.sm.user_rewards.is_empty());
}

#[test]
fn second_claim_fails_and_changes_nothing() {
    let mut state = setup_contract();
    execute(&mut state, info("sender", vec![coin(100, "tokens")]), 0, None, stake_msg()).unwrap();
    execute(&mut state, info("sender", vec![coin(100, "tokens")]), 0, None, distribute_msg())
        .unwrap();
    execute(&mut state, info("sender", vec![]), 0, None, claim_msg()).unwrap();

    let weight_before = state.sm.get_weight(&"sender".to_string());
    let total_before = state.sm.total_staked();
    let res = execute(&mut state, info("sender", vec![]), 0, None, claim_msg());
    assert_eq!(expect_err(res), RewardsError::NoRewardsToClaim);
    assert_eq!(state.sm.get_weight(&"sender".to_string()), weight_before);
    assert_eq!(state.sm.total_staked(), total_before);
    assert!(state.sm.get_accrued(&"sender".to_string()).unwrap().is_empty());
}

#[test]
fn distribute_order_does_not_matter() {
    let run = |first: Vec<Coin>, second: Vec<Coin>| -> Vec<(String, u128)> {
        let mut state = setup_contract();
        execute(&mut state, info("sender", vec![coin(100, "tokens")]), 0, None, stake_msg())
            .unwrap();
        execute(&mut state, info("sender", first), 0, None, distribute_msg()).unwrap();
        execute(&mut state, info("sender", second), 0, None, distribute_msg()).unwrap();
        state
            .sm
            .get_accrued(&"sender".to_string())
            .unwrap()
            .iter()
            .map(|c| (c.denom.clone(), c.amount))
            .collect()
    };
    let one = run(vec![coin(70, "tokens")], vec![coin(31, "other")]);
    let two = run(vec![coin(31, "other")], vec![coin(70, "tokens")]);
    assert_eq!(one, two);
    assert_eq!(one, vec![("other".to_string(), 31), ("tokens".to_string(), 70)]);
}

fn expect_err(r: Result<stake_rewards::contract::Response, RewardsError>) -> RewardsError {
    match r {
        Err(e) => e,
        Ok(_) => panic!("expected a failure"),
    }
}
