use stake_rewards::coins::Coin;
use stake_rewards::fees::{calculate_fee_distribution, calculate_fee_split, calculate_total_fee};
use stake_rewards::rates::Rate;

fn coin(amount: u128, denom: &str) -> Coin {
    Coin { denom: denom.to_string(), amount }
}

fn pct(x: u64) -> Rate {
    Rate::percent(x)
}

fn third() -> Rate {
    // floor(10^18 / 3), the 18-decimal fixed-point closest below 1/3
    Rate { atomics: 333_333_333_333_333_333u128 }
}

fn addr(s: &str) -> String {
    s.to_string()
}

fn amounts(v: &Vec<Coin>) -> Vec<(String, u128)> {
    v.iter().map(|c| (c.denom.clone(), c.amount)).collect()
}

#[test]
fn test_basic_fee_split() {
    let mut rewards = vec![coin(1000, "token1"), coin(1000, "token2")];
    let fees = vec![(pct(10), addr("test1")), (pct(20), addr("test2"))];

    let result = calculate_fee_split(&mut rewards, &fees);

    assert_eq!(result[0].0, addr("test1"));
    assert_eq!(amounts(&result[0].1), vec![("token1".to_string(), 100), ("token2".to_string(), 100)]);

    assert_eq!(result[1].0, addr("test2"));
    assert_eq!(amounts(&result[1].1), vec![("token1".to_string(), 200), ("token2".to_string(), 200)]);

    assert_eq!(amounts(&rewards), vec![("token1".to_string(), 700), ("token2".to_string(), 700)]);
}

#[test]
fn test_zero_fees() {
    let mut rewards = vec![coin(1000, "token1")];
    let fees = vec![(pct(0), addr("test1"))];

    let result = calculate_fee_split(&mut rewards, &fees);

    assert!(result.is_empty());
    assert_eq!(amounts(&rewards), vec![("token1".to_string(), 1000)]);
}

#[test]
fn test_no_rewards() {
    let mut rewards = Vec::new();
    let fees = vec![(pct(10), addr("test1")), (pct(20), addr("test2"))];

    let result = calculate_fee_split(&mut rewards, &fees);

    assert!(result.iter().all(|(_, coins)| coins.is_empty()));
    assert!(rewards.is_empty());
}

#[test]
fn test_single_fee_recipient() {
    let mut rewards = vec![coin(1000, "token1")];
    let fees = vec![(pct(100), addr("test1"))];

    let result = calculate_fee_split(&mut rewards, &fees);

    assert_eq!(amounts(&result[0].1), vec![("token1".to_string(), 1000)]);
    assert!(rewards.is_empty());
}

#[test]
fn test_high_fee_percentages() {
    let mut rewards = vec![coin(1000, "token1")];
    let fees = vec![(pct(50), addr("test1")), (pct(50), addr("test2"))];

    let result = calculate_fee_split(&mut rewards, &fees);

    assert_eq!(amounts(&result[0].1), vec![("token1".to_string(), 500)]);
    assert_eq!(amounts(&result[1].1), vec![("token1".to_string(), 500)]);
    assert!(rewards.is_empty());
}

#[test]
fn test_mixed_fee_percentages() {
    let mut rewards = vec![coin(1000, "token1")];
    let fees = vec![(pct(10), addr("test1")), (pct(30), addr("test2"))];

    let result = calculate_fee_split(&mut rewards, &fees);

    assert_eq!(amounts(&result[0].1), vec![("token1".to_string(), 100)]);
    assert_eq!(amounts(&result[1].1), vec![("token1".to_string(), 300)]);
    assert_eq!(amounts(&rewards), vec![("token1".to_string(), 600)]);
}

#[test]
fn test_rounding_effects() {
    let mut rewards = vec![coin(1000, "token1")];
    let fees = vec![(third(), addr("test1")), (third(), addr("test2"))];

    let result = calculate_fee_split(&mut rewards, &fees);

    assert_eq!(amounts(&result[0].1), vec![("token1".to_string(), 333)]);
    assert_eq!(amounts(&result[1].1), vec![("token1".to_string(), 333)]);
    assert_eq!(amounts(&rewards), vec![("token1".to_string(), 334)]);
}

#[test]
fn test_multiple_recipients_same_fee() {
    let mut rewards = vec![coin(1000, "token1")];
    let fees = vec![(pct(25), addr("test1")), (pct(25), addr("test2"))];

    let result = calculate_fee_split(&mut rewards, &fees);

    assert_eq!(amounts(&result[0].1), vec![("token1".to_string(), 250)]);
    assert_eq!(amounts(&result[1].1), vec![("token1".to_string(), 250)]);
    assert_eq!(amounts(&rewards), vec![("token1".to_string(), 500)]);
}

#[test]
fn test_multiple_recipients_one_zero() {
    let mut rewards = vec![coin(1000, "token1")];
    let fees = vec![(pct(50), addr("test1")), (pct(0), addr("test2"))];

    let result = calculate_fee_split(&mut rewards, &fees);

    assert_eq!(result.len(), 1);
    assert_eq!(amounts(&result[0].1), vec![("token1".to_string(), 500)]);
    assert_eq!(amounts(&rewards), vec![("token1".to_string(), 500)]);
}

#[test]
fn test_distribution_equal() {
    let rewards = vec![coin(1000, "token1")];
    let fees = vec![(pct(25), addr("test1")), (pct(25), addr("test2"))];

    let result = calculate_fee_distribution(rewards, &fees);

    assert_eq!(amounts(&result[0].1), vec![("token1".to_string(), 500)]);
    assert_eq!(amounts(&result[1].1), vec![("token1".to_string(), 500)]);
}

#[test]
fn test_distribution_unequal() {
    let rewards = vec![coin(1000, "token1")];
    let fees = vec![(pct(5), addr("test1")), (pct(15), addr("test2"))];

    let result = calculate_fee_distribution(rewards, &fees);

    assert_eq!(amounts(&result[0].1), vec![("token1".to_string(), 250)]);
    assert_eq!(amounts(&result[1].1), vec![("token1".to_string(), 750)]);
}

#[test]
fn test_total_fee() {
    let fees = vec![(pct(10), addr("test1")), (pct(20), addr("test2"))];
    assert_eq!(calculate_total_fee(1000, &fees), 300);
    let none: Vec<(Rate, String)> = vec![];
    assert_eq!(calculate_total_fee(1000, &none), 0);
}
