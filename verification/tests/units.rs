use stake_rewards::coins::{normalize_coins, Coin};
use stake_rewards::config::{staking_from_legacy, StakingConfig, Whitelist};
use stake_rewards::errors::RewardsError;
use stake_rewards::index::{index_from_ratio, mul_floor_index};
use stake_rewards::payment::{must_pay, one_coin, sub_first_coin};

fn coin(amount: u128, denom: &str) -> Coin {
    Coin { denom: denom.to_string(), amount }
}

#[test]
fn normalize_sorts_merges_and_drops_zeros() {
    let raw = vec![coin(5, "zz"), coin(0, "mm"), coin(3, "aa"), coin(7, "zz")];
    let out = normalize_coins(&raw).expect("fits");
    let pairs: Vec<(String, u128)> = out.iter().map(|c| (c.denom.clone(), c.amount)).collect();
    assert_eq!(pairs, vec![("aa".to_string(), 3), ("zz".to_string(), 12)]);
}

#[test]
fn normalize_overflow_is_detected() {
    let raw = vec![coin(u128::MAX, "aa"), coin(1, "aa")];
    assert!(normalize_coins(&raw).is_none());
}

#[test]
fn index_ratio_and_mul_floor_round_down() {
    // one third of a unit per weight, times 100 weight: 33 units
    let idx = index_from_ratio(100, 300);
    assert_eq!(mul_floor_index(100, &idx), Some(33));
    assert_eq!(mul_floor_index(0, &idx), Some(0));
}

#[test]
fn payment_helpers_match_each_error() {
    assert_eq!(one_coin(&vec![]).unwrap_err(), RewardsError::NoFunds);
    assert_eq!(one_coin(&vec![coin(0, "aa")]).unwrap_err(), RewardsError::NoFunds);
    assert_eq!(
        one_coin(&vec![coin(1, "aa"), coin(1, "bb")]).unwrap_err(),
        RewardsError::MultipleDenoms
    );
    assert_eq!(one_coin(&vec![coin(5, "aa")]).unwrap().amount, 5);

    assert_eq!(
        must_pay(&vec![coin(5, "aa")], &"bb".to_string()).unwrap_err(),
        RewardsError::MissingDenom
    );
    assert_eq!(must_pay(&vec![coin(5, "aa")], &"aa".to_string()).unwrap(), 5);
}

#[test]
fn fee_subtraction_is_first_match() {
    let funds = vec![coin(3, "bb"), coin(10, "aa"), coin(9, "aa")];
    let out = sub_first_coin(&funds, &coin(10, "aa")).expect("sub works");
    let pairs: Vec<(String, u128)> = out.iter().map(|c| (c.denom.clone(), c.amount)).collect();
    // the first matching entry is consumed whole and removed
    assert_eq!(pairs, vec![("bb".to_string(), 3), ("aa".to_string(), 9)]);

    let out = sub_first_coin(&funds, &coin(4, "aa")).expect("sub works");
    let pairs: Vec<(String, u128)> = out.iter().map(|c| (c.denom.clone(), c.amount)).collect();
    assert_eq!(pairs, vec![("bb".to_string(), 3), ("aa".to_string(), 6), ("aa".to_string(), 9)]);

    assert_eq!(
        sub_first_coin(&funds, &coin(11, "aa")).unwrap_err(),
        RewardsError::InvalidIncentive
    );
    assert_eq!(
        sub_first_coin(&funds, &coin(1, "cc")).unwrap_err(),
        RewardsError::InvalidIncentive
    );
}

#[test]
fn legacy_staking_shapes_map_over() {
    match staking_from_legacy(Some("ukuji".to_string()), None, None).unwrap() {
        StakingConfig::NativeToken { denom } => assert_eq!(denom, "ukuji"),
        _ => panic!("expected a native-token source"),
    }
    match staking_from_legacy(None, Some("hook".to_string()), Some("crates.io:cw4-stake".to_string()))
        .unwrap()
    {
        StakingConfig::Cw4Hook { cw4_addr } => assert_eq!(cw4_addr, "hook"),
        _ => panic!("expected a membership hook"),
    }
    match staking_from_legacy(
        None,
        Some("hook".to_string()),
        Some("crates.io:dao-voting-token-staked".to_string()),
    )
    .unwrap()
    {
        StakingConfig::DaoDaoHook { daodao_addr } => assert_eq!(daodao_addr, "hook"),
        _ => panic!("expected a voting hook"),
    }
    match staking_from_legacy(None, None, None).unwrap() {
        StakingConfig::Permissioned => {}
        _ => panic!("expected the permissioned source"),
    }
    assert!(staking_from_legacy(
        Some("ukuji".to_string()),
        Some("hook".to_string()),
        None
    )
    .is_err());
}

#[test]
fn whitelist_checks_membership() {
    let wl = Whitelist::Listed(vec!["aa".to_string(), "bb".to_string()]);
    assert!(wl.check(&"aa".to_string()));
    assert!(!wl.check(&"cc".to_string()));
    assert!(Whitelist::All.check(&"anything".to_string()));
}
