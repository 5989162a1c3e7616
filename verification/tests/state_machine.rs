use stake_rewards::coins::Coin;
use stake_rewards::errors::RewardsError;
use stake_rewards::state::RewardsSM;

fn coin(amount: u128, denom: &str) -> Coin {
    Coin { denom: denom.to_string(), amount }
}

fn coins(amount: u128, denom: &str) -> Vec<Coin> {
    vec![coin(amount, denom)]
}

#[test]
fn increase_weight() {
    let mut state = RewardsSM::initialize();
    let user = "user".to_string();
    let ret = state
        .increase_weight(&user, 100u128, false)
        .expect("increase works");
    assert!(ret.is_empty());
    assert_eq!(state.get_weight(&user), 100u128);
    assert_eq!(state.total_staked(), 100u128);
}

#[test]
fn increase_weight_with_rewards() {
    let mut state = RewardsSM::initialize();
    let user = "user".to_string();
    let ret = state
        .increase_weight(&user, 100u128, true)
        .expect("increase works");
    assert!(ret.is_empty());
    assert_eq!(state.get_weight(&user), 100u128);
    assert_eq!(state.total_staked(), 100u128);

    state
        .distribute_rewards(&coins(100u128, "ucoin"))
        .expect("distribute works");

    let ret = state
        .increase_weight(&user, 100u128, true)
        .expect("increase works");
    assert_eq!(ret.len(), 1);
    assert_eq!(ret[0].amount, 100u128);
    assert_eq!(ret[0].denom, "ucoin");
    assert_eq!(state.get_weight(&user), 200u128);
    assert_eq!(state.total_staked(), 200u128);
}

#[test]
fn decrease_weight() {
    let mut state = RewardsSM::initialize();
    let user = "user".to_string();
    state
        .increase_weight(&user, 100u128, false)
        .expect("increase works");
    let ret = state
        .decrease_weight(&user, 50u128, false)
        .expect("decrease works");
    assert!(ret.is_empty());
    assert_eq!(state.get_weight(&user), 50u128);
    assert_eq!(state.total_staked(), 50u128);
}

#[test]
fn decrease_weight_with_rewards() {
    let mut state = RewardsSM::initialize();
    let user = "user".to_string();
    state
        .increase_weight(&user, 100u128, true)
        .expect("increase works");
    state.distribute_rewards(&coins(100u128, "ucoin")).unwrap();
    let ret = state
        .decrease_weight(&user, 50u128, true)
        .expect("decrease works");
    assert_eq!(ret.len(), 1);
    assert_eq!(ret[0].amount, 100u128);
    assert_eq!(ret[0].denom, "ucoin");
    assert_eq!(state.get_weight(&user), 50u128);
    assert_eq!(state.total_staked(), 50u128);
}

#[test]
fn set_weight() {
    let mut state = RewardsSM::initialize();
    let user = "user".to_string();
    let ret = state.set_weight(&user, 100u128, false).expect("set works");
    assert!(ret.is_empty());
    assert_eq!(state.get_weight(&user), 100u128);
    assert_eq!(state.total_staked(), 100u128);
}

#[test]
fn set_weight_with_rewards() {
    let mut state = RewardsSM::initialize();
    let user = "user".to_string();
    let ret = state.set_weight(&user, 100u128, true).expect("set works");
    assert!(ret.is_empty());
    assert_eq!(state.get_weight(&user), 100u128);
    assert_eq!(state.total_staked(), 100u128);

    state
        .distribute_rewards(&coins(100u128, "ucoin"))
        .expect("distribute works");

    let ret = state.set_weight(&user, 200u128, true).expect("set works");
    assert_eq!(ret.len(), 1);
    assert_eq!(ret[0].amount, 100u128);
    assert_eq!(ret[0].denom, "ucoin");
    assert_eq!(state.get_weight(&user), 200u128);
    assert_eq!(state.total_staked(), 200u128);
}

#[test]
fn claim_accrued() {
    let mut state = RewardsSM::initialize();
    let user = "user".to_string();
    state
        .increase_weight(&user, 100u128, true)
        .expect("increase works");
    state.distribute_rewards(&coins(100u128, "ucoin")).unwrap();
    let ret = state.claim_accrued(&user).expect("claim works");
    assert_eq!(ret.len(), 1);
    assert_eq!(ret[0].amount, 100u128);
    assert_eq!(ret[0].denom, "ucoin");
}

#[test]
fn claim_with_zero_accrued() {
    let mut state = RewardsSM::initialize();
    let user = "user".to_string();
    state
        .increase_weight(&user, 100u128, true)
        .expect("increase works");
    state.claim_accrued(&user).expect("claim works");
    let ret = state.claim_accrued(&user).expect("claim works");
    assert!(ret.is_empty());
}

#[test]
fn get_accrued() {
    let mut state = RewardsSM::initialize();
    let user = "user".to_string();
    state
        .increase_weight(&user, 100u128, true)
        .expect("increase works");
    state.distribute_rewards(&coins(100u128, "ucoin")).unwrap();
    let ret = state.get_accrued(&user).expect("get works");
    assert_eq!(ret.len(), 1);
    assert_eq!(ret[0].amount, 100u128);
    assert_eq!(ret[0].denom, "ucoin");
}

#[test]
fn calculate_users_rewards() {
    let mut state = RewardsSM::initialize();
    let user1 = "user1".to_string();
    let user2 = "user2".to_string();
    state
        .increase_weight(&user1, 100u128, true)
        .expect("increase works");
    state
        .increase_weight(&user2, 200u128, true)
        .expect("increase works");
    // should not be reflected in the preview
    state.distribute_rewards(&coins(100u128, "ucoin")).unwrap();
    let users = vec![user1.clone(), user2.clone()];
    let ret = state
        .calculate_users_rewards(&users, &coins(100u128, "ucoin"))
        .expect("calculate works");

    assert_eq!(ret.len(), 2);
    assert_eq!(ret[0].0, user1);
    assert_eq!(ret[1].0, user2);
    assert_eq!(ret[0].1.len(), 1);
    assert_eq!(ret[1].1.len(), 1);
    assert_eq!(ret[0].1[0].amount, 33u128);
    assert_eq!(ret[1].1[0].amount, 66u128);
}

#[test]
fn calculate_users_rewards_with_nonexistent_user() {
    let mut state = RewardsSM::initialize();
    let user1 = "user1".to_string();
    let user2 = "user2".to_string();
    state
        .increase_weight(&user1, 100u128, true)
        .expect("increase works");
    let users = vec![user1.clone(), user2.clone()];
    let ret = state
        .calculate_users_rewards(&users, &coins(100u128, "ucoin"))
        .expect("calculate works");

    assert_eq!(ret[0].0, user1);
    assert_eq!(ret[1].0, user2);
    assert_eq!(ret[0].1.len(), 1);
    assert_eq!(ret[1].1.len(), 0);
    assert_eq!(ret[0].1[0].amount, 100u128);
}

#[test]
fn calculate_users_rewards_with_zero_rewards() {
    let mut state = RewardsSM::initialize();
    let user1 = "user1".to_string();
    let user2 = "user2".to_string();
    state
        .increase_weight(&user1, 100u128, true)
        .expect("increase works");
    state
        .increase_weight(&user2, 200u128, true)
        .expect("increase works");
    let users = vec![user1.clone(), user2.clone()];
    let ret = state
        .calculate_users_rewards(&users, &vec![])
        .expect("calculate works");
    assert_eq!(ret.len(), 2);
    assert_eq!(ret[0].0, user1);
    assert_eq!(ret[1].0, user2);
    assert!(ret[0].1.is_empty());
    assert!(ret[1].1.is_empty());
}

#[test]
fn distribute_without_stake_fails() {
    let mut state = RewardsSM::initialize();
    let err = state
        .distribute_rewards(&coins(100u128, "ucoin"))
        .unwrap_err();
    assert_eq!(err, RewardsError::NoStake);
}

#[test]
fn decrease_unknown_user_fails() {
    let mut state = RewardsSM::initialize();
    let err = state
        .decrease_weight(&"ghostless".to_string(), 1u128, false)
        .unwrap_err();
    assert_eq!(err, RewardsError::WeightNotFound);
}

#[test]
fn decrease_beyond_stake_fails() {
    let mut state = RewardsSM::initialize();
    let user = "user".to_string();
    state.increase_weight(&user, 100u128, false).unwrap();
    let err = state.decrease_weight(&user, 150u128, false).unwrap_err();
    assert_eq!(err, RewardsError::Underflow);
}

#[test]
fn rewards_round_down_and_keep_dust() {
    let mut state = RewardsSM::initialize();
    let a = "a".to_string();
    let b = "b".to_string();
    state.increase_weight(&a, 1u128, false).unwrap();
    state.increase_weight(&b, 2u128, false).unwrap();
    state.distribute_rewards(&coins(100u128, "ucoin")).unwrap();
    let ra = state.get_accrued(&a).unwrap();
    let rb = state.get_accrued(&b).unwrap();
    // 1/3 and 2/3 of 100, floored: the remaining dust stays on the index
    assert_eq!(ra[0].amount, 33u128);
    assert_eq!(rb[0].amount, 66u128);
}

#[test]
fn multiple_denoms_come_out_sorted() {
    let mut state = RewardsSM::initialize();
    let user = "user".to_string();
    state.increase_weight(&user, 100u128, false).unwrap();
    state
        .distribute_rewards(&vec![coin(50, "zcoin"), coin(25, "acoin")])
        .unwrap();
    let ret = state.get_accrued(&user).unwrap();
    assert_eq!(ret.len(), 2);
    assert_eq!(ret[0].denom, "acoin");
    assert_eq!(ret[0].amount, 25u128);
    assert_eq!(ret[1].denom, "zcoin");
    assert_eq!(ret[1].amount, 50u128);
}

#[test]
fn add_accrued_rewards_zero_weight_zero_existing() {
    let mut state = RewardsSM::initialize();
    let user = "user".to_string();
    state
        .add_accrued_rewards(&user, &coins(100u128, "ucoin"))
        .expect("add works");
    let ret = state.get_accrued(&user).expect("get works");
    assert_eq!(ret.len(), 1);
    assert_eq!(ret[0].amount, 100u128);
    assert_eq!(ret[0].denom, "ucoin");
}

#[test]
fn add_accrued_rewards_with_weight_zero_existing() {
    let mut state = RewardsSM::initialize();
    let user = "user".to_string();
    state
        .increase_weight(&user, 100u128, true)
        .expect("increase works");
    state
        .add_accrued_rewards(&user, &coins(100u128, "ucoin"))
        .expect("add works");
    let ret = state.get_accrued(&user).expect("get works");
    assert_eq!(ret.len(), 1);
    assert_eq!(ret[0].amount, 100u128);
    assert_eq!(ret[0].denom, "ucoin");
}

#[test]
fn add_accrued_rewards_with_weight_and_existing() {
    let mut state = RewardsSM::initialize();
    let user = "user".to_string();
    state
        .increase_weight(&user, 100u128, true)
        .expect("increase works");
    state
        .distribute_rewards(&coins(100u128, "ucoin"))
        .expect("distribute works");
    state
        .add_accrued_rewards(&user, &coins(100u128, "ucoin"))
        .expect("add works");
    state
        .add_accrued_rewards(&user, &coins(100u128, "ucoin"))
        .expect("add works");
    let ret = state.get_accrued(&user).expect("get works");
    assert_eq!(ret.len(), 1);
    assert_eq!(ret[0].amount, 300u128);
    assert_eq!(ret[0].denom, "ucoin");
}

#[test]
fn add_accrued_rewards_multiple_coins() {
    let mut state = RewardsSM::initialize();
    let user = "user".to_string();
    state
        .increase_weight(&user, 100u128, true)
        .expect("increase works");
    state
        .distribute_rewards(&coins(100u128, "ucoin"))
        .expect("distribute works");
    state
        .add_accrued_rewards(&user, &vec![coin(100u128, "ucoin"), coin(200u128, "ucash")])
        .expect("add works");
    let ret = state.get_accrued(&user).expect("get works");
    assert_eq!(ret.len(), 2);
    assert_eq!(ret[0].denom, "ucash");
    assert_eq!(ret[0].amount, 200u128);
    assert_eq!(ret[1].denom, "ucoin");
    assert_eq!(ret[1].amount, 200u128);
}
