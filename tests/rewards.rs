use addix_fomo_rewards::amount::payable_part;
use addix_fomo_rewards::engine::{AddixFomoRewards, RewardsError, MAX_REWARDS};
use addix_fomo_rewards::pool::Pool;
use scrypto::prelude::Decimal;

/// Attos of a decimal written in the usual notation.
fn attos(s: &str) -> u128 {
    let d: Decimal = s.parse().unwrap();
    u128::try_from(d.attos()).unwrap()
}

fn signed(s: &str) -> i128 {
    let d: Decimal = s.parse().unwrap();
    i128::try_from(d.attos()).unwrap()
}

fn custody(l: &AddixFomoRewards, asset: u64) -> u128 {
    l.pool(asset).unwrap().amount()
}

fn total(l: &AddixFomoRewards, asset: u64) -> u128 {
    l.pool(asset).unwrap().total_assigned()
}

const REWARD1: u64 = 11;
const REWARD2: u64 = 22;

#[test]
fn test_addix_fomo_rewards() {
    let mut rewards = AddixFomoRewards::new();

    rewards.deposit_future_rewards(REWARD1, 18, attos("6")).unwrap();
    rewards.deposit_future_rewards(REWARD2, 2, attos("1000000")).unwrap();
    rewards.deposit_future_rewards(REWARD1, 18, attos("7")).unwrap();

    let user1 = rewards.mint_user_nft();
    let user2 = rewards.mint_user_nft();
    assert_eq!((user1, user2), (1, 2));

    rewards.assign_rewards(&vec![(1, signed("10")), (2, signed("1"))], REWARD1).unwrap();
    rewards.assign_rewards(&vec![(1, signed("1.006")), (2, signed("2.006"))], REWARD2).unwrap();
    rewards.assign_rewards(&vec![(1, signed("1")), (2, signed("1.005"))], REWARD2).unwrap();

    let user1_rewards = rewards.withdraw_rewards(user1).unwrap();
    assert!(user1_rewards[0].0 == REWARD1, "wrong reward1 received by user #1");
    assert!(user1_rewards[1].0 == REWARD2, "wrong reward2 received by user #1");
    assert!(
        user1_rewards[0].1 == attos("10"),
        "wrong reward1 amount received by user #1: {}",
        user1_rewards[0].1
    );
    assert!(
        user1_rewards[1].1 == attos("2"),
        "wrong reward2 amount received by user #1: {}",
        user1_rewards[1].1
    );

    let user2_rewards = rewards.withdraw_rewards(user2).unwrap();
    assert!(user2_rewards[0].0 == REWARD1, "wrong reward1 received by user #2");
    assert!(user2_rewards[1].0 == REWARD2, "wrong reward2 received by user #2");
    assert!(
        user2_rewards[0].1 == attos("1"),
        "wrong reward1 amount received by user #2: {}",
        user2_rewards[0].1
    );
    assert!(
        user2_rewards[1].1 == attos("3.01"),
        "wrong reward2 amount received by user #2: {}",
        user2_rewards[1].1
    );

    rewards.assign_rewards(&vec![(2, signed("1"))], REWARD1).unwrap();
    rewards.assign_rewards(&vec![(2, signed("4.0095"))], REWARD2).unwrap();

    let user2_rewards = rewards.withdraw_rewards(user2).unwrap();
    assert!(user2_rewards[0].0 == REWARD1, "wrong reward1 received by user #2");
    assert!(user2_rewards[1].0 == REWARD2, "wrong reward2 received by user #2");
    assert!(
        user2_rewards[0].1 == attos("1"),
        "wrong reward1 amount received by user #2 in the second round: {}",
        user2_rewards[0].1
    );
    assert!(
        user2_rewards[1].1 == attos("4.01"),
        "wrong reward2 amount received by user #2 in the second round: {}",
        user2_rewards[1].1
    );
}

#[test]
fn two_assets_scenario() {
    let asset_x: u64 = 1;
    let asset_y: u64 = 2;
    let mut l = AddixFomoRewards::new();
    l.deposit_future_rewards(asset_x, 6, attos("13")).unwrap();
    l.deposit_future_rewards(asset_y, 2, attos("10000")).unwrap();
    l.mint_user_nft();
    l.mint_user_nft();
    l.assign_rewards(&vec![(1, signed("10")), (2, signed("1"))], asset_x).unwrap();
    l.assign_rewards(&vec![(1, signed("1.006")), (2, signed("2.006"))], asset_y).unwrap();
    l.assign_rewards(&vec![(1, signed("1")), (2, signed("1.005"))], asset_y).unwrap();

    let first = l.withdraw_rewards(1).unwrap();
    assert_eq!(first, vec![(asset_x, attos("10")), (asset_y, attos("2"))]);
    assert_eq!(l.outstanding(asset_y, 1), attos("0.006"));
    assert_eq!(l.outstanding(asset_x, 1), 0);

    let second = l.withdraw_rewards(2).unwrap();
    assert_eq!(second, vec![(asset_x, attos("1")), (asset_y, attos("3.01"))]);
    assert_eq!(l.outstanding(asset_y, 2), attos("0.001"));

    assert_eq!(custody(&l, asset_x), attos("2"));
    assert_eq!(custody(&l, asset_y), attos("9994.99"));
    assert_eq!(total(&l, asset_y), attos("0.007"));
}

#[test]
fn truncation_then_carry() {
    let mut l = AddixFomoRewards::new();
    l.deposit_future_rewards(5, 2, attos("100")).unwrap();
    let b = l.mint_user_nft();
    l.assign_rewards(&vec![(b, signed("1.006"))], 5).unwrap();
    assert_eq!(l.withdraw_rewards(b).unwrap(), vec![(5, attos("1"))]);
    assert_eq!(l.outstanding(5, b), attos("0.006"));
    l.assign_rewards(&vec![(b, signed("1"))], 5).unwrap();
    assert_eq!(l.withdraw_rewards(b).unwrap(), vec![(5, attos("1"))]);
    assert_eq!(l.outstanding(5, b), attos("0.006"));
    assert_eq!(total(&l, 5), attos("0.006"));
    assert_eq!(custody(&l, 5), attos("98"));
}

#[test]
fn carry_without_withdrawal_in_between() {
    let mut l = AddixFomoRewards::new();
    l.deposit_future_rewards(5, 2, attos("100")).unwrap();
    let b = l.mint_user_nft();
    l.assign_rewards(&vec![(b, signed("1.006"))], 5).unwrap();
    l.assign_rewards(&vec![(b, signed("1"))], 5).unwrap();
    assert_eq!(l.withdraw_rewards(b).unwrap(), vec![(5, attos("2"))]);
    assert_eq!(l.outstanding(5, b), attos("0.006"));
}

#[test]
fn remainder_accumulates_to_a_payable_unit() {
    let mut l = AddixFomoRewards::new();
    l.deposit_future_rewards(5, 2, attos("1")).unwrap();
    let b = l.mint_user_nft();
    l.assign_rewards(&vec![(b, signed("0.006"))], 5).unwrap();
    assert_eq!(l.withdraw_rewards(b).unwrap(), vec![]);
    l.assign_rewards(&vec![(b, signed("0.006"))], 5).unwrap();
    assert_eq!(l.withdraw_rewards(b).unwrap(), vec![(5, attos("0.01"))]);
    assert_eq!(l.outstanding(5, b), attos("0.002"));
}

#[test]
fn withdraw_twice_second_is_empty() {
    let mut l = AddixFomoRewards::new();
    l.deposit_future_rewards(3, 2, attos("50")).unwrap();
    l.deposit_future_rewards(4, 0, attos("50")).unwrap();
    let b = l.mint_user_nft();
    l.assign_rewards(&vec![(b, signed("2.345"))], 3).unwrap();
    l.assign_rewards(&vec![(b, signed("7.9"))], 4).unwrap();
    let first = l.withdraw_rewards(b).unwrap();
    assert_eq!(first, vec![(3, attos("2.34")), (4, attos("7"))]);
    let second = l.withdraw_rewards(b).unwrap();
    assert!(second.is_empty());
    assert_eq!(l.outstanding(3, b), attos("0.005"));
    assert_eq!(l.outstanding(4, b), attos("0.9"));
}

#[test]
fn withdraw_with_nothing_assigned_is_empty() {
    let mut l = AddixFomoRewards::new();
    l.deposit_future_rewards(3, 2, attos("50")).unwrap();
    let b = l.mint_user_nft();
    assert_eq!(l.withdraw_rewards(b).unwrap(), vec![]);
    assert_eq!(custody(&l, 3), attos("50"));
}

#[test]
fn withdraw_by_unissued_id_is_refused() {
    let mut l = AddixFomoRewards::new();
    l.deposit_future_rewards(3, 2, attos("50")).unwrap();
    l.mint_user_nft();
    assert_eq!(l.withdraw_rewards(0), Err(RewardsError::InvalidCredential));
    assert_eq!(l.withdraw_rewards(2), Err(RewardsError::InvalidCredential));
}

fn funded_with_one_assignment() -> AddixFomoRewards {
    let mut l = AddixFomoRewards::new();
    l.deposit_future_rewards(9, 18, attos("10")).unwrap();
    l.mint_user_nft();
    l.mint_user_nft();
    l.assign_rewards(&vec![(1, signed("4"))], 9).unwrap();
    l
}

fn assert_untouched(l: &AddixFomoRewards) {
    assert_eq!(l.outstanding(9, 1), attos("4"));
    assert_eq!(l.outstanding(9, 2), 0);
    assert_eq!(total(l, 9), attos("4"));
    assert_eq!(custody(l, 9), attos("10"));
}

#[test]
fn assign_to_missing_pool_is_refused() {
    let mut l = funded_with_one_assignment();
    assert_eq!(l.assign_rewards(&vec![(1, signed("1"))], 8), Err(RewardsError::PoolNotFound));
    assert!(l.pool(8).is_none());
    assert_untouched(&l);
}

#[test]
fn assign_out_of_range_is_refused() {
    let mut l = funded_with_one_assignment();
    let zero = l.assign_rewards(&vec![(2, signed("1")), (0, signed("1"))], 9);
    assert_eq!(zero, Err(RewardsError::BeneficiaryOutOfRange));
    assert_untouched(&l);
    let unissued = l.assign_rewards(&vec![(2, signed("1")), (3, signed("1"))], 9);
    assert_eq!(unissued, Err(RewardsError::BeneficiaryOutOfRange));
    assert_untouched(&l);
}

#[test]
fn assign_non_positive_is_refused() {
    let mut l = funded_with_one_assignment();
    let zero = l.assign_rewards(&vec![(2, signed("1")), (1, 0)], 9);
    assert_eq!(zero, Err(RewardsError::NonPositiveAmount));
    assert_untouched(&l);
    let negative = l.assign_rewards(&vec![(2, signed("-0.5"))], 9);
    assert_eq!(negative, Err(RewardsError::NonPositiveAmount));
    assert_untouched(&l);
}

#[test]
fn assign_beyond_funds_is_refused() {
    let mut l = funded_with_one_assignment();
    let over = l.assign_rewards(&vec![(1, signed("3")), (2, signed("3.000000000000000001"))], 9);
    assert_eq!(over, Err(RewardsError::InsufficientPoolFunds));
    assert_untouched(&l);
    let huge = l.assign_rewards(&vec![(1, i128::MAX), (2, i128::MAX), (2, i128::MAX)], 9);
    assert_eq!(huge, Err(RewardsError::InsufficientPoolFunds));
    assert_untouched(&l);
}

#[test]
fn entry_errors_come_before_the_funds_check() {
    let mut l = funded_with_one_assignment();
    let r = l.assign_rewards(&vec![(1, signed("100")), (5, signed("1"))], 9);
    assert_eq!(r, Err(RewardsError::BeneficiaryOutOfRange));
    let r = l.assign_rewards(&vec![(1, signed("100")), (2, signed("-1")), (0, signed("1"))], 9);
    assert_eq!(r, Err(RewardsError::NonPositiveAmount));
    assert_untouched(&l);
}

#[test]
fn assign_exactly_all_funds() {
    let mut l = funded_with_one_assignment();
    l.assign_rewards(&vec![(2, signed("5")), (2, signed("1"))], 9).unwrap();
    assert_eq!(l.outstanding(9, 2), attos("6"));
    assert_eq!(total(&l, 9), custody(&l, 9));
}

#[test]
fn conservation_holds_through_operations() {
    let mut l = AddixFomoRewards::new();
    l.deposit_future_rewards(1, 3, attos("20")).unwrap();
    for _ in 0..4 {
        l.mint_user_nft();
    }
    l.assign_rewards(&vec![(1, signed("1.2345")), (2, signed("3.3333")), (3, signed("0.0009"))], 1)
        .unwrap();
    l.assign_rewards(&vec![(4, signed("5")), (1, signed("0.0005"))], 1).unwrap();
    for b in 1..=4u64 {
        l.withdraw_rewards(b).unwrap();
        let sum: u128 = (1..=4u64).map(|c| l.outstanding(1, c)).sum();
        assert_eq!(sum, total(&l, 1));
        assert!(custody(&l, 1) >= total(&l, 1));
    }
    assert_eq!(l.outstanding(1, 1), 0);
    assert_eq!(l.outstanding(1, 2), attos("0.0003"));
    assert_eq!(l.outstanding(1, 3), attos("0.0009"));
    assert_eq!(l.outstanding(1, 4), 0);
    assert_eq!(custody(&l, 1), attos("10.432"));
}

#[test]
fn deposit_tops_up_an_existing_pool() {
    let mut l = AddixFomoRewards::new();
    l.deposit_future_rewards(1, 2, attos("1.5")).unwrap();
    l.deposit_future_rewards(1, 2, attos("2.25")).unwrap();
    assert_eq!(custody(&l, 1), attos("3.75"));
    assert_eq!(l.assets(), &vec![1]);
    assert_eq!(l.pool(1).unwrap().divisibility(), 2);
}

#[test]
fn deposit_beyond_capacity_is_refused() {
    let mut l = AddixFomoRewards::new();
    for a in 0..MAX_REWARDS as u64 {
        l.deposit_future_rewards(a, 18, 1).unwrap();
    }
    assert_eq!(
        l.deposit_future_rewards(1000, 18, 1),
        Err(RewardsError::CapacityExceeded)
    );
    assert!(l.pool(1000).is_none());
    assert_eq!(l.assets().len(), MAX_REWARDS);
    l.deposit_future_rewards(7, 18, 1).unwrap();
    assert_eq!(custody(&l, 7), 2);
}

#[test]
fn ids_are_issued_in_order() {
    let mut l = AddixFomoRewards::new();
    assert_eq!(l.last_user_nft_id(), 0);
    assert_eq!(l.mint_user_nft(), 1);
    assert_eq!(l.mint_user_nft(), 2);
    assert_eq!(l.last_user_nft_id(), 2);
}

#[test]
fn payable_part_truncates_to_precision() {
    assert_eq!(payable_part(attos("1.006"), 2), attos("1"));
    assert_eq!(payable_part(attos("3.011"), 2), attos("3.01"));
    assert_eq!(payable_part(attos("7.9"), 0), attos("7"));
    assert_eq!(payable_part(attos("0.009"), 2), 0);
    assert_eq!(payable_part(123, 18), 123);
    assert_eq!(payable_part(0, 5), 0);
}

#[test]
fn pool_ledger_operations() {
    let mut p = Pool::new(2);
    p.put(attos("5"));
    p.credit(7, attos("1.239"));
    p.credit(7, attos("1"));
    p.credit(8, attos("0.5"));
    assert_eq!(p.outstanding(7), attos("2.239"));
    assert_eq!(p.outstanding(9), 0);
    assert_eq!(p.total_assigned(), attos("2.739"));
    assert_eq!(p.withdraw_for(7), attos("2.23"));
    assert_eq!(p.outstanding(7), attos("0.009"));
    assert_eq!(p.amount(), attos("2.77"));
    assert_eq!(p.total_assigned(), attos("0.509"));
    assert_eq!(p.withdraw_for(7), 0);
    assert_eq!(p.amount(), attos("2.77"));
}
