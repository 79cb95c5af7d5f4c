use staking::{
    Decimal, Deposit, Instant, IssuedReceipt, Lock, Resource, ResourceAddress, Staking,
    StakingError,
};

const DAY: i64 = 86_400;
const START: i64 = 1_700_000_000;

fn asset(tag: u8) -> ResourceAddress {
    ResourceAddress::new([tag; 30])
}

fn dec(v: i64) -> Decimal {
    Decimal::from_int(v)
}

fn at(days: i64) -> Instant {
    Instant::new(START + days * DAY)
}

fn no_bonus() -> Lock {
    Lock { payment: Decimal::zero(), duration: 30 }
}

/// A ledger with weekly periods, 1 000 000 in the reward vault and asset 1
/// paying `budget` per period.
fn ledger(budget: i64) -> Staking {
    let mut s = Staking::new(dec(1_000_000), 7, false, 30, at(0)).unwrap();
    s.add_stakable(asset(1), dec(budget), no_bonus()).unwrap();
    s
}

fn staked(s: &Staking, id: u64, a: ResourceAddress) -> Option<Decimal> {
    s.id_data(id).unwrap().resource(&a).map(|r| r.amount_staked)
}

#[test]
fn new_ledger_starts_at_period_zero() {
    let s = Staking::new(dec(500), 7, true, 30, at(0)).unwrap();
    assert_eq!(s.current_period(), 0);
    assert_eq!(s.next_period(), at(7));
    assert_eq!(s.period_interval(), 7);
    assert_eq!(s.max_claim_delay(), 5);
    assert_eq!(s.unstake_delay(), 7);
    assert_eq!(s.max_unstaking_delay(), 30);
    assert_eq!(s.reward_vault(), dec(500));
    assert!(s.dao_controlled());
    assert_eq!(s.id_counter(), 0);
    assert_eq!(s.unstake_receipt_counter(), 0);
    assert_eq!(s.stake_transfer_receipt_counter(), 0);
    assert!(s.stakable(&asset(1)).is_none());
    assert!(s.id_data(1).is_none());
}

#[test]
fn one_staker_claims_the_whole_budget() {
    let mut s = ledger(700);
    let id = s.create_id(at(0)).unwrap();
    assert_eq!(id, 1);
    assert_eq!(s.id_data(id).unwrap().next_period, 1);
    s.stake(asset(1), Deposit::Tokens(asset(1), dec(100)), id, at(1)).unwrap();
    assert_eq!(s.current_period(), 0);
    assert_eq!(s.stakable(&asset(1)).unwrap().amount_staked, dec(100));

    let reward = s.update_id(id, at(7)).unwrap();
    assert_eq!(s.current_period(), 1);
    assert_eq!(s.stakable(&asset(1)).unwrap().rewards.get(&0), Some(&dec(7)));
    assert_eq!(reward, dec(700));
    assert_eq!(s.reward_vault(), dec(1_000_000 - 700));
    assert_eq!(s.id_data(id).unwrap().next_period, 2);
}

#[test]
fn two_stakers_share_in_proportion() {
    let mut s = ledger(400);
    let a = s.create_id(at(0)).unwrap();
    let b = s.create_id(at(0)).unwrap();
    s.stake(asset(1), Deposit::Tokens(asset(1), dec(100)), a, at(1)).unwrap();
    s.stake(asset(1), Deposit::Tokens(asset(1), dec(300)), b, at(2)).unwrap();
    assert_eq!(s.stakable(&asset(1)).unwrap().amount_staked, dec(400));

    s.update_period(at(7)).unwrap();
    assert_eq!(s.stakable(&asset(1)).unwrap().rewards.get(&0), Some(&dec(1)));
    assert_eq!(s.update_id(a, at(7)), Ok(dec(100)));
    assert_eq!(s.update_id(b, at(8)), Ok(dec(300)));
    assert_eq!(s.reward_vault(), dec(1_000_000 - 400));
}

#[test]
fn unstake_in_two_steps() {
    let mut s = ledger(700);
    let id = s.create_id(at(0)).unwrap();
    s.stake(asset(1), Deposit::Tokens(asset(1), dec(100)), id, at(0)).unwrap();

    let issued = s.start_unstake(id, asset(1), dec(50), false, at(1)).unwrap();
    assert_eq!(issued, IssuedReceipt::Unstake(1));
    let data = s.unstake_receipt_data(1).unwrap();
    assert_eq!(data.address, asset(1));
    assert_eq!(data.amount, dec(50));
    assert_eq!(data.redemption_time, at(1 + 7));
    assert_eq!(staked(&s, id, asset(1)), Some(dec(50)));
    assert_eq!(s.stakable(&asset(1)).unwrap().amount_staked, dec(50));
    assert_eq!(s.stakable(&asset(1)).unwrap().vault, dec(100));

    assert_eq!(s.finish_unstake(1, at(3)), Err(StakingError::RedemptionNotYetDue));
    assert_eq!(
        s.finish_unstake(1, Instant::new(START + 8 * DAY - 1)),
        Err(StakingError::RedemptionNotYetDue)
    );
    assert_eq!(s.unstake_receipt_data(1), Some(data));
    assert_eq!(s.stakable(&asset(1)).unwrap().vault, dec(100));

    assert_eq!(s.finish_unstake(1, at(8)), Ok((asset(1), dec(50))));
    assert_eq!(s.stakable(&asset(1)).unwrap().vault, dec(50));
    assert_eq!(staked(&s, id, asset(1)), Some(dec(50)));
    assert_eq!(s.stakable(&asset(1)).unwrap().amount_staked, dec(50));
    assert_eq!(s.unstake_receipt_data(1), None);
}

#[test]
fn locked_stake_cannot_be_unstaked_until_the_lock_runs_out() {
    let mut s = Staking::new(dec(1_000), 7, false, 30, at(0)).unwrap();
    s.add_stakable(asset(1), dec(0), Lock { payment: Decimal::zero(), duration: 30 }).unwrap();
    let id = s.create_id(at(0)).unwrap();
    s.stake(asset(1), Deposit::Tokens(asset(1), dec(100)), id, at(0)).unwrap();
    assert_eq!(s.lock_stake(asset(1), id, at(0)), Ok(Decimal::zero()));
    assert_eq!(
        s.id_data(id).unwrap().resource(&asset(1)),
        Some(Resource { amount_staked: dec(100), locked_until: Some(at(30)) })
    );

    assert_eq!(
        s.start_unstake(id, asset(1), dec(10), false, at(10)),
        Err(StakingError::StakeLocked)
    );
    assert_eq!(staked(&s, id, asset(1)), Some(dec(100)));
    assert_eq!(s.current_period(), 0);

    assert_eq!(
        s.start_unstake(id, asset(1), dec(10), false, at(31)),
        Ok(IssuedReceipt::Unstake(1))
    );
    assert_eq!(staked(&s, id, asset(1)), Some(dec(90)));
}

#[test]
fn a_lock_ends_exactly_at_its_time() {
    let mut s = ledger(0);
    let id = s.create_id(at(0)).unwrap();
    s.stake(asset(1), Deposit::Tokens(asset(1), dec(100)), id, at(0)).unwrap();
    s.lock_stake(asset(1), id, at(0)).unwrap();
    assert_eq!(
        s.start_unstake(id, asset(1), dec(10), true, Instant::new(START + 30 * DAY - 1)),
        Err(StakingError::StakeLocked)
    );
    assert_eq!(
        s.start_unstake(id, asset(1), dec(10), true, at(30)),
        Ok(IssuedReceipt::Transfer(1))
    );
}

#[test]
fn lock_pays_the_bonus_on_the_amount_staked() {
    let mut s = Staking::new(dec(1_000), 7, false, 30, at(0)).unwrap();
    let half = dec(1).checked_div(dec(2)).unwrap();
    s.add_stakable(asset(1), dec(0), Lock { payment: half, duration: 14 }).unwrap();
    let id = s.create_id(at(0)).unwrap();
    s.stake(asset(1), Deposit::Tokens(asset(1), dec(300)), id, at(0)).unwrap();
    assert_eq!(s.lock_stake(asset(1), id, at(2)), Ok(dec(150)));
    assert_eq!(s.reward_vault(), dec(850));
    assert_eq!(
        s.id_data(id).unwrap().resource(&asset(1)).unwrap().locked_until,
        Some(at(16))
    );
}

#[test]
fn locking_twice_is_rejected_until_the_lock_has_run_out() {
    let mut s = Staking::new(dec(1_000), 7, false, 30, at(0)).unwrap();
    s.add_stakable(asset(1), dec(0), Lock { payment: dec(1), duration: 30 }).unwrap();
    let id = s.create_id(at(0)).unwrap();
    s.stake(asset(1), Deposit::Tokens(asset(1), dec(100)), id, at(0)).unwrap();
    assert_eq!(s.lock_stake(asset(1), id, at(0)), Ok(dec(100)));
    assert_eq!(s.lock_stake(asset(1), id, at(0)), Err(StakingError::AlreadyLocked));
    assert_eq!(s.lock_stake(asset(1), id, at(29)), Err(StakingError::AlreadyLocked));
    assert_eq!(s.reward_vault(), dec(900));
    assert_eq!(s.lock_stake(asset(1), id, at(30)), Ok(dec(100)));
    assert_eq!(
        s.id_data(id).unwrap().resource(&asset(1)).unwrap().locked_until,
        Some(at(60))
    );
}

#[test]
fn a_redeemed_receipt_cannot_be_redeemed_again() {
    let mut s = ledger(0);
    let id = s.create_id(at(0)).unwrap();
    s.stake(asset(1), Deposit::Tokens(asset(1), dec(100)), id, at(0)).unwrap();
    s.start_unstake(id, asset(1), dec(40), false, at(0)).unwrap();
    assert_eq!(s.finish_unstake(1, at(7)), Ok((asset(1), dec(40))));
    assert_eq!(s.finish_unstake(1, at(7)), Err(StakingError::ReceiptNotFound));
    assert_eq!(s.finish_unstake(1, at(70)), Err(StakingError::ReceiptNotFound));
    assert_eq!(s.stakable(&asset(1)).unwrap().vault, dec(60));
}

#[test]
fn claims_reach_back_no_further_than_the_claim_delay() {
    let mut s = ledger(100);
    s.set_max_claim_delay(2);
    let id = s.create_id(at(0)).unwrap();
    s.stake(asset(1), Deposit::Tokens(asset(1), dec(100)), id, at(0)).unwrap();
    // four periods close, each paying 1 per staked unit
    for week in 1..=4 {
        s.update_period(at(7 * week)).unwrap();
    }
    assert_eq!(s.current_period(), 4);
    // the record is four periods behind and is paid for two
    assert_eq!(s.update_id(id, at(29)), Ok(dec(200)));
    assert_eq!(s.id_data(id).unwrap().next_period, 5);
    // the two older periods are forfeited
    assert_eq!(s.update_id(id, at(30)), Err(StakingError::NothingToClaim));
    assert_eq!(s.reward_vault(), dec(1_000_000 - 200));
}

#[test]
fn a_record_claims_every_period_within_the_claim_delay() {
    let mut s = ledger(100);
    let id = s.create_id(at(0)).unwrap();
    s.stake(asset(1), Deposit::Tokens(asset(1), dec(50)), id, at(0)).unwrap();
    for week in 1..=3 {
        s.update_period(at(7 * week)).unwrap();
    }
    // rate 2 per unit in each of three periods, 50 staked
    assert_eq!(s.update_id(id, at(22)), Ok(dec(300)));
}

#[test]
fn a_missed_interval_closes_one_period_only() {
    let mut s = ledger(700);
    let id = s.create_id(at(0)).unwrap();
    s.stake(asset(1), Deposit::Tokens(asset(1), dec(100)), id, at(0)).unwrap();
    // three and a half intervals after the start: two whole intervals past the due time
    s.update_period(Instant::new(START + 24 * DAY + DAY / 2)).unwrap();
    assert_eq!(s.current_period(), 1);
    assert_eq!(s.next_period(), at(28));
    let unit = s.stakable(&asset(1)).unwrap();
    assert_eq!(unit.rewards.len(), 1);
    assert_eq!(unit.rewards.get(&0), Some(&dec(7)));
    // nothing more is due before the new start
    s.update_period(at(27)).unwrap();
    assert_eq!(s.current_period(), 1);
    assert_eq!(s.update_id(id, at(27)), Ok(dec(700)));
}

#[test]
fn update_period_before_the_due_time_changes_nothing() {
    let mut s = ledger(700);
    s.update_period(Instant::new(START + 7 * DAY - 1)).unwrap();
    assert_eq!(s.current_period(), 0);
    assert_eq!(s.next_period(), at(7));
    assert!(s.stakable(&asset(1)).unwrap().rewards.is_empty());
    s.update_period(at(7)).unwrap();
    assert_eq!(s.current_period(), 1);
    assert_eq!(s.next_period(), at(14));
}

#[test]
fn a_period_without_stake_records_a_zero_rate() {
    let mut s = ledger(700);
    s.update_period(at(7)).unwrap();
    assert_eq!(s.stakable(&asset(1)).unwrap().rewards.get(&0), Some(&Decimal::zero()));
}

#[test]
fn the_rate_is_rounded_toward_zero() {
    let mut s = ledger(100);
    let id = s.create_id(at(0)).unwrap();
    s.stake(asset(1), Deposit::Tokens(asset(1), dec(300)), id, at(0)).unwrap();
    s.update_period(at(7)).unwrap();
    let third = Decimal { lo: 333_333_333_333_333_333, mid: 0, hi: 0 };
    assert_eq!(s.stakable(&asset(1)).unwrap().rewards.get(&0), Some(&third));
    // 0.333333333333333333 * 300 = 99.9999999999999999
    let paid = dec(100).checked_sub(Decimal { lo: 100, mid: 0, hi: 0 }).unwrap();
    assert_eq!(s.update_id(id, at(7)), Ok(paid));
}

#[test]
fn a_recorded_rate_is_never_rewritten() {
    let mut s = ledger(700);
    let id = s.create_id(at(0)).unwrap();
    s.stake(asset(1), Deposit::Tokens(asset(1), dec(100)), id, at(0)).unwrap();
    s.update_period(at(7)).unwrap();
    s.set_rewards(asset(1), dec(5)).unwrap();
    s.update_id(id, at(8)).unwrap();
    s.stake(asset(1), Deposit::Tokens(asset(1), dec(900)), id, at(9)).unwrap();
    s.update_period(at(14)).unwrap();
    s.start_unstake(id, asset(1), dec(1), false, at(15)).unwrap();
    let unit = s.stakable(&asset(1)).unwrap();
    assert_eq!(unit.rewards.get(&0), Some(&dec(7)));
    assert_eq!(unit.rewards.get(&1), Some(&dec(5).checked_div(dec(1_000)).unwrap()));
    assert_eq!(unit.rewards.len(), 2);
}

#[test]
fn the_total_staked_is_the_sum_of_the_positions() {
    let mut s = ledger(10);
    s.add_stakable(asset(2), dec(10), no_bonus()).unwrap();
    let a = s.create_id(at(0)).unwrap();
    let b = s.create_id(at(0)).unwrap();
    s.stake(asset(1), Deposit::Tokens(asset(1), dec(10)), a, at(0)).unwrap();
    s.stake(asset(1), Deposit::Tokens(asset(1), dec(20)), b, at(0)).unwrap();
    s.stake(asset(2), Deposit::Tokens(asset(2), dec(5)), b, at(0)).unwrap();
    s.start_unstake(b, asset(1), dec(8), false, at(1)).unwrap();
    s.start_unstake(a, asset(1), dec(4), true, at(1)).unwrap();
    s.stake(asset(1), Deposit::TransferReceipt(1), b, at(2)).unwrap();

    assert_eq!(staked(&s, a, asset(1)), Some(dec(6)));
    assert_eq!(staked(&s, b, asset(1)), Some(dec(16)));
    assert_eq!(staked(&s, a, asset(2)), None);
    assert_eq!(staked(&s, b, asset(2)), Some(dec(5)));
    assert_eq!(s.stakable(&asset(1)).unwrap().amount_staked, dec(22));
    assert_eq!(s.stakable(&asset(2)).unwrap().amount_staked, dec(5));
    // custody still holds the 8 that wait for redemption
    assert_eq!(s.stakable(&asset(1)).unwrap().vault, dec(30));
    assert_eq!(s.stakable(&asset(2)).unwrap().vault, dec(5));
}

#[test]
fn the_claim_pointer_never_goes_back() {
    let mut s = ledger(10);
    let id = s.create_id(at(0)).unwrap();
    let mut last = s.id_data(id).unwrap().next_period;
    s.stake(asset(1), Deposit::Tokens(asset(1), dec(10)), id, at(0)).unwrap();
    for day in 1..40 {
        match day % 4 {
            0 => {
                let _ = s.update_id(id, at(day));
            }
            1 => {
                let _ = s.stake(asset(1), Deposit::Tokens(asset(1), dec(1)), id, at(day));
            }
            2 => {
                let _ = s.start_unstake(id, asset(1), dec(1), false, at(day));
            }
            _ => {
                let _ = s.lock_stake(asset(1), id, at(day));
            }
        }
        let next = s.id_data(id).unwrap().next_period;
        assert!(next >= last);
        last = next;
    }
    assert_eq!(last, s.current_period() + 1);
}

#[test]
fn unstaking_more_than_the_position_takes_the_whole_position() {
    let mut s = ledger(0);
    let id = s.create_id(at(0)).unwrap();
    s.stake(asset(1), Deposit::Tokens(asset(1), dec(100)), id, at(0)).unwrap();
    s.start_unstake(id, asset(1), dec(250), false, at(0)).unwrap();
    assert_eq!(s.unstake_receipt_data(1).unwrap().amount, dec(100));
    assert_eq!(staked(&s, id, asset(1)), Some(Decimal::zero()));
    assert_eq!(s.stakable(&asset(1)).unwrap().amount_staked, Decimal::zero());
    assert_eq!(
        s.start_unstake(id, asset(1), dec(1), false, at(0)),
        Err(StakingError::NothingStaked)
    );
}

#[test]
fn unstaking_exactly_the_position_takes_it_all() {
    let mut s = ledger(0);
    let id = s.create_id(at(0)).unwrap();
    s.stake(asset(1), Deposit::Tokens(asset(1), dec(100)), id, at(0)).unwrap();
    s.start_unstake(id, asset(1), dec(100), false, at(0)).unwrap();
    assert_eq!(s.unstake_receipt_data(1).unwrap().amount, dec(100));
    assert_eq!(staked(&s, id, asset(1)), Some(Decimal::zero()));
}

#[test]
fn a_transfer_receipt_moves_a_position_to_another_record() {
    let mut s = ledger(0);
    let a = s.create_id(at(0)).unwrap();
    let b = s.create_id(at(0)).unwrap();
    s.stake(asset(1), Deposit::Tokens(asset(1), dec(100)), a, at(0)).unwrap();
    assert_eq!(
        s.start_unstake(a, asset(1), dec(30), true, at(1)),
        Ok(IssuedReceipt::Transfer(1))
    );
    let data = s.stake_transfer_receipt_data(1).unwrap();
    assert_eq!(data.address, asset(1));
    assert_eq!(data.amount, dec(30));
    assert_eq!(s.stakable(&asset(1)).unwrap().amount_staked, dec(70));

    s.stake(asset(1), Deposit::TransferReceipt(1), b, at(1)).unwrap();
    assert_eq!(staked(&s, b, asset(1)), Some(dec(30)));
    assert_eq!(s.stakable(&asset(1)).unwrap().amount_staked, dec(100));
    assert_eq!(s.stakable(&asset(1)).unwrap().vault, dec(100));
    assert_eq!(s.stake_transfer_receipt_data(1), None);
    assert_eq!(
        s.stake(asset(1), Deposit::TransferReceipt(1), b, at(1)),
        Err(StakingError::ReceiptNotFound)
    );
}

#[test]
fn staking_more_keeps_the_lock_of_the_position() {
    let mut s = ledger(0);
    let id = s.create_id(at(0)).unwrap();
    s.stake(asset(1), Deposit::Tokens(asset(1), dec(100)), id, at(0)).unwrap();
    s.lock_stake(asset(1), id, at(0)).unwrap();
    s.stake(asset(1), Deposit::Tokens(asset(1), dec(1)), id, at(1)).unwrap();
    assert_eq!(
        s.id_data(id).unwrap().resource(&asset(1)),
        Some(Resource { amount_staked: dec(101), locked_until: Some(at(30)) })
    );
}

#[test]
fn an_asset_added_later_owes_nothing_for_earlier_periods() {
    let mut s = ledger(100);
    let id = s.create_id(at(0)).unwrap();
    s.stake(asset(1), Deposit::Tokens(asset(1), dec(100)), id, at(0)).unwrap();
    s.update_id(id, at(7)).unwrap();
    s.add_stakable(asset(2), dec(50), no_bonus()).unwrap();
    s.stake(asset(2), Deposit::Tokens(asset(2), dec(10)), id, at(8)).unwrap();
    s.update_period(at(14)).unwrap();
    s.update_period(at(21)).unwrap();
    assert_eq!(s.stakable(&asset(2)).unwrap().rewards.get(&0), None);
    assert_eq!(s.stakable(&asset(2)).unwrap().rewards.get(&1), Some(&dec(5)));
    // periods 1 and 2: 100 of asset 1 at rate 1, 10 of asset 2 at rate 5
    assert_eq!(s.update_id(id, at(21)), Ok(dec(2 * 100 + 2 * 50)));
}

#[test]
fn a_failed_payout_still_moves_the_claim_pointer() {
    let mut s = Staking::new(dec(10), 7, false, 30, at(0)).unwrap();
    s.add_stakable(asset(1), dec(700), no_bonus()).unwrap();
    let id = s.create_id(at(0)).unwrap();
    s.stake(asset(1), Deposit::Tokens(asset(1), dec(100)), id, at(0)).unwrap();
    assert_eq!(s.update_id(id, at(7)), Err(StakingError::InsufficientBalance));
    assert_eq!(s.current_period(), 1);
    assert_eq!(s.id_data(id).unwrap().next_period, 2);
    assert_eq!(s.reward_vault(), dec(10));
    s.fill_rewards(dec(10_000)).unwrap();
    assert_eq!(s.update_id(id, at(8)), Err(StakingError::NothingToClaim));
}

#[test]
fn a_rejected_operation_changes_nothing() {
    let mut s = ledger(700);
    let id = s.create_id(at(0)).unwrap();
    s.stake(asset(1), Deposit::Tokens(asset(1), dec(100)), id, at(0)).unwrap();
    // a period is due, but the record has not claimed: the stake is rejected
    // and the period stays open
    assert_eq!(
        s.stake(asset(1), Deposit::Tokens(asset(1), dec(1)), id, at(7)),
        Err(StakingError::UnclaimedRewardsPending)
    );
    assert_eq!(s.current_period(), 0);
    assert_eq!(s.next_period(), at(7));
    assert!(s.stakable(&asset(1)).unwrap().rewards.is_empty());
    assert_eq!(staked(&s, id, asset(1)), Some(dec(100)));
    assert_eq!(s.stakable(&asset(1)).unwrap().vault, dec(100));
}

#[test]
fn forced_rollover_makes_the_period_due_now() {
    let mut s = ledger(700);
    s.set_next_period_to_now(at(2));
    assert_eq!(s.next_period(), at(2));
    s.update_period(at(2)).unwrap();
    assert_eq!(s.current_period(), 1);
    assert_eq!(s.next_period(), at(9));
}

#[test]
fn the_dao_can_force_a_lock() {
    let mut s = Staking::new(dec(0), 7, true, 30, at(0)).unwrap();
    s.add_stakable(asset(1), dec(0), no_bonus()).unwrap();
    let id = s.create_id(at(0)).unwrap();
    s.stake(asset(1), Deposit::Tokens(asset(1), dec(100)), id, at(0)).unwrap();
    s.set_lock(asset(1), at(3), id).unwrap();
    assert_eq!(
        s.start_unstake(id, asset(1), dec(1), false, at(2)),
        Err(StakingError::StakeLocked)
    );
    assert!(s.start_unstake(id, asset(1), dec(1), false, at(3)).is_ok());
}

#[test]
fn settings_are_written_as_given() {
    let mut s = ledger(700);
    s.set_period_interval(3).unwrap();
    assert_eq!(s.period_interval(), 3);
    s.set_max_claim_delay(9);
    assert_eq!(s.max_claim_delay(), 9);
    s.set_unstake_delay(30).unwrap();
    assert_eq!(s.unstake_delay(), 30);
    s.set_unstake_delay(-1).unwrap();
    assert_eq!(s.unstake_delay(), -1);
    s.set_rewards(asset(1), dec(5)).unwrap();
    assert_eq!(s.stakable(&asset(1)).unwrap().reward_amount, dec(5));
    let lock = Lock { payment: dec(2), duration: 11 };
    s.edit_stakable(asset(1), dec(6), lock).unwrap();
    assert_eq!(s.stakable(&asset(1)).unwrap().reward_amount, dec(6));
    assert_eq!(s.stakable(&asset(1)).unwrap().lock, lock);
    s.fill_rewards(dec(5)).unwrap();
    assert_eq!(s.reward_vault(), dec(1_000_005));
    assert_eq!(s.remove_rewards(dec(1_000_000)), Ok(dec(1_000_000)));
    assert_eq!(s.reward_vault(), dec(5));
}

#[test]
fn the_new_interval_applies_from_the_next_close() {
    let mut s = ledger(700);
    s.set_period_interval(1).unwrap();
    // the first period is still due at its old time
    assert_eq!(s.next_period(), at(7));
    // at day 9 two whole new intervals have gone by since it was due
    s.update_period(at(9)).unwrap();
    assert_eq!(s.current_period(), 1);
    assert_eq!(s.next_period(), at(10));
}

#[test]
fn advancing_twice_at_the_same_time_closes_one_period() {
    let mut s = ledger(700);
    s.update_period(at(7)).unwrap();
    s.update_period(at(7)).unwrap();
    s.update_period(at(13)).unwrap();
    assert_eq!(s.current_period(), 1);
    assert_eq!(s.next_period(), at(14));
    assert_eq!(s.stakable(&asset(1)).unwrap().rewards.len(), 1);
}

#[test]
fn no_position_exceeds_the_total() {
    let mut s = ledger(700);
    let a = s.create_id(at(0)).unwrap();
    let b = s.create_id(at(0)).unwrap();
    s.stake(asset(1), Deposit::Tokens(asset(1), dec(1)), a, at(0)).unwrap();
    s.stake(asset(1), Deposit::Tokens(asset(1), dec(2)), b, at(0)).unwrap();
    s.start_unstake(a, asset(1), dec(1), false, at(0)).unwrap();
    let total = s.stakable(&asset(1)).unwrap().amount_staked;
    assert_eq!(total, dec(2));
    for id in [a, b] {
        let held = staked(&s, id, asset(1)).unwrap();
        assert!(!held.is_negative());
        assert!(!total.lt(held));
    }
}

#[test]
fn the_unstake_delay_starts_at_seven_days_or_at_a_lower_ceiling() {
    for (ceiling, delay) in [(30, 7), (8, 7), (7, 7), (6, 6), (3, 3), (0, 0), (-2, -2)] {
        let s = Staking::new(dec(0), 7, false, ceiling, at(0)).unwrap();
        assert_eq!(s.max_unstaking_delay(), ceiling);
        assert_eq!(s.unstake_delay(), delay);
    }
    let s = Staking::new(dec(0), 7, false, i64::MAX, at(0)).unwrap();
    assert_eq!(s.unstake_delay(), 7);
    let s = Staking::new(dec(0), 7, false, i64::MIN, at(0)).unwrap();
    assert_eq!(s.unstake_delay(), i64::MIN);
}

#[test]
fn no_receipt_waits_longer_than_the_ceiling() {
    let mut s = Staking::new(dec(0), 7, false, 3, at(0)).unwrap();
    s.add_stakable(asset(1), dec(0), no_bonus()).unwrap();
    let id = s.create_id(at(0)).unwrap();
    s.stake(asset(1), Deposit::Tokens(asset(1), dec(100)), id, at(0)).unwrap();
    s.start_unstake(id, asset(1), dec(10), false, at(1)).unwrap();
    assert_eq!(s.unstake_receipt_data(1).unwrap().redemption_time, at(4));
    assert_eq!(s.set_unstake_delay(4), Err(StakingError::DelayTooLong));
    s.set_unstake_delay(1).unwrap();
    s.start_unstake(id, asset(1), dec(10), false, at(1)).unwrap();
    assert_eq!(s.unstake_receipt_data(2).unwrap().redemption_time, at(2));
    assert_eq!(s.finish_unstake(1, at(3)), Err(StakingError::RedemptionNotYetDue));
    assert_eq!(s.finish_unstake(2, at(3)), Ok((asset(1), dec(10))));
    assert_eq!(s.finish_unstake(1, at(4)), Ok((asset(1), dec(10))));
}

#[test]
fn the_claims_on_a_period_stay_within_its_budget() {
    let mut s = ledger(100);
    let mut ids = Vec::new();
    for _ in 0..3 {
        let id = s.create_id(at(0)).unwrap();
        s.stake(asset(1), Deposit::Tokens(asset(1), dec(1)), id, at(0)).unwrap();
        ids.push(id);
    }
    s.update_period(at(7)).unwrap();
    // one record unstakes before it claims and is paid on what is left
    s.start_unstake(ids[2], asset(1), dec(1), false, at(8)).unwrap();
    let mut paid = Decimal::zero();
    for id in ids {
        match s.update_id(id, at(9)) {
            Ok(reward) => paid = paid.checked_add(reward).unwrap(),
            Err(e) => panic!("{:?}", e),
        }
    }
    // two thirds of the budget, each third rounded toward zero
    let third = Decimal { lo: 14_886_589_259_623_781_717, mid: 1, hi: 0 };
    assert_eq!(dec(100).checked_div(dec(3)), Some(third));
    assert_eq!(paid, third.checked_add(third).unwrap());
    assert!(paid.lt(dec(100)));
}
