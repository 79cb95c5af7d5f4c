use staking::{
    Decimal, Deposit, ErrorKind, Instant, Lock, ResourceAddress, Staking, StakingError,
};

const DAY: i64 = 86_400;

fn asset(tag: u8) -> ResourceAddress {
    ResourceAddress::new([tag; 30])
}

fn dec(v: i64) -> Decimal {
    Decimal::from_int(v)
}

fn at(days: i64) -> Instant {
    Instant::new(days * DAY)
}

fn lock() -> Lock {
    Lock { payment: dec(1), duration: 30 }
}

const MAX: Decimal = Decimal { lo: u64::MAX, mid: u64::MAX, hi: 0x7fff_ffff_ffff_ffff };

/// A ledger with asset 1 stakable and record 1 holding 100 of it.
fn ledger() -> Staking {
    let mut s = Staking::new(dec(1_000), 7, false, 30, at(0)).unwrap();
    s.add_stakable(asset(1), dec(700), lock()).unwrap();
    s.create_id(at(0)).unwrap();
    s.stake(asset(1), Deposit::Tokens(asset(1), dec(100)), 1, at(0)).unwrap();
    s
}

#[test]
fn new_rejects_an_interval_that_is_not_positive() {
    assert_eq!(
        Staking::new(dec(0), 0, false, 30, at(0)).err(),
        Some(StakingError::InvalidInterval)
    );
    assert_eq!(
        Staking::new(dec(0), -7, false, 30, at(0)).err(),
        Some(StakingError::InvalidInterval)
    );
}

#[test]
fn new_rejects_negative_rewards() {
    assert_eq!(
        Staking::new(dec(-1), 7, false, 30, at(0)).err(),
        Some(StakingError::InvalidAmount)
    );
}

#[test]
fn new_rejects_a_first_period_beyond_the_end_of_time() {
    assert_eq!(
        Staking::new(dec(0), 7, false, 30, Instant::new(i64::MAX - 6 * DAY)).err(),
        Some(StakingError::Overflow)
    );
    assert_eq!(
        Staking::new(dec(0), i64::MAX, false, 30, at(0)).err(),
        Some(StakingError::Overflow)
    );
}

#[test]
fn invalid_id_is_rejected_everywhere() {
    let mut s = ledger();
    assert_eq!(
        s.stake(asset(1), Deposit::Tokens(asset(1), dec(1)), 0, at(0)),
        Err(StakingError::InvalidId)
    );
    assert_eq!(
        s.stake(asset(1), Deposit::Tokens(asset(1), dec(1)), 2, at(0)),
        Err(StakingError::InvalidId)
    );
    assert_eq!(s.update_id(2, at(0)), Err(StakingError::InvalidId));
    assert_eq!(s.lock_stake(asset(1), 2, at(0)), Err(StakingError::InvalidId));
    assert_eq!(
        s.start_unstake(2, asset(1), dec(1), false, at(0)),
        Err(StakingError::InvalidId)
    );
    assert!(s.id_data(0).is_none());
    assert!(s.id_data(2).is_none());
}

#[test]
fn an_asset_that_is_not_stakable_is_rejected() {
    let mut s = ledger();
    assert_eq!(
        s.stake(asset(2), Deposit::Tokens(asset(2), dec(1)), 1, at(0)),
        Err(StakingError::NotStakable)
    );
    assert_eq!(s.lock_stake(asset(2), 1, at(0)), Err(StakingError::NotStakable));
    assert_eq!(s.set_rewards(asset(2), dec(1)), Err(StakingError::NotStakable));
    assert_eq!(s.edit_stakable(asset(2), dec(1), lock()), Err(StakingError::NotStakable));
}

#[test]
fn an_asset_cannot_be_added_twice() {
    let mut s = ledger();
    assert_eq!(s.add_stakable(asset(1), dec(1), lock()), Err(StakingError::AlreadyStakable));
    assert_eq!(s.stakable(&asset(1)).unwrap().amount_staked, dec(100));
    assert_eq!(s.stakable(&asset(1)).unwrap().reward_amount, dec(700));
}

#[test]
fn tokens_of_another_asset_are_rejected() {
    let mut s = ledger();
    s.add_stakable(asset(2), dec(0), lock()).unwrap();
    assert_eq!(
        s.stake(asset(1), Deposit::Tokens(asset(2), dec(1)), 1, at(0)),
        Err(StakingError::WrongAsset)
    );
}

#[test]
fn a_transfer_receipt_of_another_asset_is_rejected() {
    let mut s = ledger();
    s.add_stakable(asset(2), dec(0), lock()).unwrap();
    s.start_unstake(1, asset(1), dec(10), true, at(0)).unwrap();
    assert_eq!(
        s.stake(asset(2), Deposit::TransferReceipt(1), 1, at(0)),
        Err(StakingError::WrongAsset)
    );
    assert!(s.stake_transfer_receipt_data(1).is_some());
}

#[test]
fn a_receipt_that_does_not_exist_is_rejected() {
    let mut s = ledger();
    assert_eq!(s.finish_unstake(0, at(100)), Err(StakingError::ReceiptNotFound));
    assert_eq!(s.finish_unstake(1, at(100)), Err(StakingError::ReceiptNotFound));
    assert_eq!(
        s.stake(asset(1), Deposit::TransferReceipt(0), 1, at(0)),
        Err(StakingError::ReceiptNotFound)
    );
    assert_eq!(
        s.stake(asset(1), Deposit::TransferReceipt(1), 1, at(0)),
        Err(StakingError::ReceiptNotFound)
    );
}

#[test]
fn negative_amounts_are_rejected() {
    let mut s = ledger();
    assert_eq!(
        s.stake(asset(1), Deposit::Tokens(asset(1), dec(-1)), 1, at(0)),
        Err(StakingError::InvalidAmount)
    );
    assert_eq!(
        s.start_unstake(1, asset(1), dec(-1), false, at(0)),
        Err(StakingError::InvalidAmount)
    );
    assert_eq!(s.fill_rewards(dec(-1)), Err(StakingError::InvalidAmount));
    assert_eq!(s.remove_rewards(dec(-1)), Err(StakingError::InvalidAmount));
}

#[test]
fn a_negative_bonus_is_not_paid() {
    let mut s = ledger();
    s.edit_stakable(asset(1), dec(700), Lock { payment: dec(-1), duration: 30 }).unwrap();
    assert_eq!(s.lock_stake(asset(1), 1, at(0)), Err(StakingError::InvalidAmount));
    assert_eq!(s.reward_vault(), dec(1_000));
}

#[test]
fn a_negative_reward_is_not_paid() {
    let mut s = ledger();
    s.set_rewards(asset(1), dec(-700)).unwrap();
    assert_eq!(s.update_id(1, at(7)), Err(StakingError::InvalidAmount));
    assert_eq!(s.reward_vault(), dec(1_000));
}

#[test]
fn set_period_interval_rejects_what_is_not_positive() {
    let mut s = ledger();
    assert_eq!(s.set_period_interval(0), Err(StakingError::InvalidInterval));
    assert_eq!(s.set_period_interval(-1), Err(StakingError::InvalidInterval));
    assert_eq!(s.period_interval(), 7);
}

#[test]
fn set_unstake_delay_is_capped() {
    let mut s = ledger();
    assert_eq!(s.set_unstake_delay(31), Err(StakingError::DelayTooLong));
    assert_eq!(s.unstake_delay(), 7);
    assert_eq!(s.set_unstake_delay(30), Ok(()));
}

#[test]
fn set_lock_needs_a_dao() {
    let mut s = ledger();
    assert_eq!(s.set_lock(asset(1), at(5), 1), Err(StakingError::NotDaoControlled));
}

#[test]
fn set_lock_needs_a_record_and_a_position() {
    let mut s = Staking::new(dec(0), 7, true, 30, at(0)).unwrap();
    s.add_stakable(asset(1), dec(0), lock()).unwrap();
    assert_eq!(s.set_lock(asset(1), at(5), 1), Err(StakingError::InvalidId));
    s.create_id(at(0)).unwrap();
    assert_eq!(s.set_lock(asset(1), at(5), 1), Err(StakingError::NoPosition));
}

#[test]
fn a_record_without_a_position_cannot_lock_or_unstake() {
    let mut s = ledger();
    s.create_id(at(0)).unwrap();
    assert_eq!(s.lock_stake(asset(1), 2, at(0)), Err(StakingError::NoPosition));
    assert_eq!(
        s.start_unstake(2, asset(1), dec(1), false, at(0)),
        Err(StakingError::NoPosition)
    );
}

#[test]
fn an_empty_position_cannot_be_unstaked() {
    let mut s = ledger();
    s.start_unstake(1, asset(1), dec(100), false, at(0)).unwrap();
    assert_eq!(
        s.start_unstake(1, asset(1), dec(1), false, at(0)),
        Err(StakingError::NothingStaked)
    );
}

#[test]
fn a_locked_position_cannot_be_unstaked() {
    let mut s = ledger();
    s.lock_stake(asset(1), 1, at(0)).unwrap();
    assert_eq!(
        s.start_unstake(1, asset(1), dec(1), false, at(1)),
        Err(StakingError::StakeLocked)
    );
}

#[test]
fn unclaimed_rewards_block_staking() {
    let mut s = ledger();
    assert_eq!(
        s.stake(asset(1), Deposit::Tokens(asset(1), dec(1)), 1, at(7)),
        Err(StakingError::UnclaimedRewardsPending)
    );
    s.update_id(1, at(7)).unwrap();
    assert_eq!(s.stake(asset(1), Deposit::Tokens(asset(1), dec(1)), 1, at(7)), Ok(()));
}

#[test]
fn a_receipt_cannot_be_redeemed_early() {
    let mut s = ledger();
    s.start_unstake(1, asset(1), dec(1), false, at(0)).unwrap();
    assert_eq!(s.finish_unstake(1, at(6)), Err(StakingError::RedemptionNotYetDue));
}

#[test]
fn a_position_cannot_be_locked_twice() {
    let mut s = ledger();
    s.lock_stake(asset(1), 1, at(0)).unwrap();
    assert_eq!(s.lock_stake(asset(1), 1, at(1)), Err(StakingError::AlreadyLocked));
}

#[test]
fn nothing_to_claim_before_a_period_has_closed() {
    let mut s = ledger();
    assert_eq!(s.update_id(1, at(6)), Err(StakingError::NothingToClaim));
    assert_eq!(s.id_data(1).unwrap().next_period, 1);
}

#[test]
fn nothing_to_claim_with_a_claim_delay_of_zero() {
    let mut s = ledger();
    s.set_max_claim_delay(0);
    assert_eq!(s.update_id(1, at(7)), Err(StakingError::NothingToClaim));
    assert_eq!(s.current_period(), 0);
}

#[test]
fn the_reward_vault_cannot_be_overdrawn() {
    let mut s = ledger();
    assert_eq!(s.remove_rewards(dec(1_001)), Err(StakingError::InsufficientBalance));
    assert_eq!(s.reward_vault(), dec(1_000));
    s.edit_stakable(asset(1), dec(700), Lock { payment: dec(11), duration: 30 }).unwrap();
    assert_eq!(s.lock_stake(asset(1), 1, at(0)), Err(StakingError::InsufficientBalance));
    assert_eq!(s.id_data(1).unwrap().resource(&asset(1)).unwrap().locked_until, None);
}

#[test]
fn amounts_beyond_the_range_are_rejected() {
    let mut s = ledger();
    assert_eq!(
        s.stake(asset(1), Deposit::Tokens(asset(1), MAX), 1, at(0)),
        Err(StakingError::Overflow)
    );
    assert_eq!(s.fill_rewards(MAX), Err(StakingError::Overflow));
    assert_eq!(s.stakable(&asset(1)).unwrap().amount_staked, dec(100));
    assert_eq!(s.reward_vault(), dec(1_000));
}

#[test]
fn a_rate_beyond_the_range_keeps_the_period_open() {
    let mut s = Staking::new(dec(0), 7, false, 30, at(0)).unwrap();
    s.add_stakable(asset(1), MAX, lock()).unwrap();
    s.create_id(at(0)).unwrap();
    let atto = Decimal { lo: 1, mid: 0, hi: 0 };
    s.stake(asset(1), Deposit::Tokens(asset(1), atto), 1, at(0)).unwrap();
    assert_eq!(s.update_period(at(7)), Err(StakingError::Overflow));
    assert_eq!(s.current_period(), 0);
    assert!(s.stakable(&asset(1)).unwrap().rewards.is_empty());
    assert_eq!(s.update_id(1, at(7)), Err(StakingError::Overflow));
    assert_eq!(s.create_id(at(7)), Err(StakingError::Overflow));
    s.set_rewards(asset(1), dec(1)).unwrap();
    assert_eq!(s.update_period(at(7)), Ok(()));
    assert_eq!(s.current_period(), 1);
}

#[test]
fn a_lock_beyond_the_end_of_time_is_rejected() {
    let mut s = ledger();
    s.edit_stakable(asset(1), dec(700), Lock { payment: dec(0), duration: i64::MAX }).unwrap();
    assert_eq!(s.lock_stake(asset(1), 1, at(0)), Err(StakingError::Overflow));
}

#[test]
fn a_reward_sum_beyond_the_range_is_rejected_after_the_pointer_moved() {
    let mut s = Staking::new(dec(0), 7, false, 30, at(0)).unwrap();
    let big = Decimal { lo: 0, mid: 0, hi: 0x4000_0000_0000_0000 };
    s.add_stakable(asset(1), big, lock()).unwrap();
    s.create_id(at(0)).unwrap();
    s.stake(asset(1), Deposit::Tokens(asset(1), dec(1)), 1, at(0)).unwrap();
    s.update_period(at(7)).unwrap();
    s.update_period(at(14)).unwrap();
    // each of the two periods owes 2^190 subunits: their sum does not fit
    assert_eq!(s.update_id(1, at(14)), Err(StakingError::Overflow));
    assert_eq!(s.id_data(1).unwrap().next_period, 3);
}

#[test]
fn every_error_has_its_kind() {
    for e in [
        StakingError::InvalidId,
        StakingError::NotStakable,
        StakingError::AlreadyStakable,
        StakingError::WrongAsset,
        StakingError::ReceiptNotFound,
        StakingError::InvalidAmount,
        StakingError::InvalidInterval,
        StakingError::DelayTooLong,
        StakingError::NotDaoControlled,
        StakingError::NoPosition,
    ] {
        assert_eq!(e.kind(), ErrorKind::Validation);
    }
    for e in [
        StakingError::NothingStaked,
        StakingError::StakeLocked,
        StakingError::UnclaimedRewardsPending,
        StakingError::RedemptionNotYetDue,
        StakingError::AlreadyLocked,
        StakingError::NothingToClaim,
    ] {
        assert_eq!(e.kind(), ErrorKind::StateConflict);
    }
    for e in [StakingError::InsufficientBalance, StakingError::Overflow] {
        assert_eq!(e.kind(), ErrorKind::ResourceExhaustion);
    }
}

#[test]
fn addresses_compare_by_their_bytes() {
    let mut bytes = [7u8; 30];
    let a = ResourceAddress::new(bytes);
    assert!(a.same_as(&ResourceAddress::new(bytes)));
    bytes[29] = 8;
    assert!(!a.same_as(&ResourceAddress::new(bytes)));
    bytes[29] = 7;
    bytes[0] = 0;
    assert!(!a.same_as(&ResourceAddress::new(bytes)));
}
