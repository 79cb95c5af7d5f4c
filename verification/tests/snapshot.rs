use staking::{
    Decimal, Deposit, Id, Instant, Lock, Resource, ResourceAddress, Snapshot, StakableUnit,
    StakeTransferReceipt, Staking, UnstakeReceipt,
};
use std::collections::HashMap;

const DAY: i64 = 86_400;

fn asset(tag: u8) -> ResourceAddress {
    ResourceAddress::new([tag; 30])
}

fn dec(v: i64) -> Decimal {
    Decimal::from_int(v)
}

fn at(days: i64) -> Instant {
    Instant::new(days * DAY)
}

/// The state of a ledger after a little of everything: two assets, two
/// records, a closed period, a pending receipt of each kind and a redeemed one.
fn busy() -> Snapshot {
    let mut s = Staking::new(dec(1_000), 7, true, 30, at(0)).unwrap();
    s.add_stakable(asset(1), dec(700), Lock { payment: dec(1), duration: 30 }).unwrap();
    s.add_stakable(asset(2), dec(10), Lock { payment: dec(0), duration: 3 }).unwrap();
    let a = s.create_id(at(0)).unwrap();
    let b = s.create_id(at(0)).unwrap();
    s.stake(asset(1), Deposit::Tokens(asset(1), dec(100)), a, at(0)).unwrap();
    s.stake(asset(2), Deposit::Tokens(asset(2), dec(5)), a, at(0)).unwrap();
    s.stake(asset(1), Deposit::Tokens(asset(1), dec(300)), b, at(1)).unwrap();
    s.update_id(a, at(7)).unwrap();
    s.start_unstake(a, asset(1), dec(10), false, at(8)).unwrap();
    s.start_unstake(a, asset(1), dec(20), true, at(8)).unwrap();
    s.update_id(b, at(8)).unwrap();
    s.start_unstake(b, asset(1), dec(30), false, at(8)).unwrap();
    s.finish_unstake(1, at(15)).unwrap();
    s.lock_stake(asset(2), a, at(15)).unwrap();
    s.into_snapshot()
}

#[test]
fn a_snapshot_holds_the_whole_state() {
    let snapshot = busy();
    assert_eq!(snapshot.period_interval, 7);
    assert_eq!(snapshot.current_period, 2);
    assert_eq!(snapshot.next_period, at(21));
    assert_eq!(snapshot.max_claim_delay, 5);
    assert_eq!(snapshot.unstake_delay, 7);
    assert_eq!(snapshot.max_unstaking_delay, 30);
    assert!(snapshot.dao_controlled);
    assert_eq!(snapshot.stakes.len(), 2);
    assert_eq!(snapshot.stakes[0].address, asset(1));
    assert_eq!(snapshot.stakes[0].amount_staked, dec(340));
    assert_eq!(snapshot.stakes[0].vault, dec(390));
    assert_eq!(snapshot.stakes[0].rewards.len(), 2);
    assert_eq!(snapshot.stakes[1].amount_staked, dec(5));
    assert_eq!(snapshot.ids.len(), 2);
    assert_eq!(
        snapshot.ids[0].resources,
        vec![
            (asset(1), Resource { amount_staked: dec(70), locked_until: None }),
            (asset(2), Resource { amount_staked: dec(5), locked_until: Some(at(18)) }),
        ]
    );
    assert_eq!(snapshot.unstake_receipts.len(), 2);
    assert_eq!(snapshot.unstake_receipts[0], None);
    assert_eq!(
        snapshot.unstake_receipts[1],
        Some(UnstakeReceipt { address: asset(1), amount: dec(30), redemption_time: at(15) })
    );
    assert_eq!(
        snapshot.stake_transfer_receipts,
        vec![Some(StakeTransferReceipt { address: asset(1), amount: dec(20) })]
    );
}

#[test]
fn a_snapshot_of_a_ledger_is_admitted_back() {
    let snapshot = busy();
    assert!(snapshot.is_wf());
    let mut s = Staking::from_snapshot(snapshot).unwrap();
    assert_eq!(s.current_period(), 2);
    assert_eq!(s.id_counter(), 2);
    assert_eq!(s.stakable(&asset(1)).unwrap().amount_staked, dec(340));
    // and goes on where it stopped
    assert_eq!(s.finish_unstake(2, at(15)), Ok((asset(1), dec(30))));
    s.fill_rewards(dec(10_000)).unwrap();
    s.update_id(2, at(15)).unwrap();
    s.stake(asset(1), Deposit::TransferReceipt(1), 2, at(15)).unwrap();
    assert_eq!(s.stakable(&asset(1)).unwrap().amount_staked, dec(360));
    assert_eq!(s.stakable(&asset(1)).unwrap().vault, dec(360));
}

#[test]
fn a_new_ledger_round_trips() {
    let s = Staking::new(dec(0), 1, false, 0, at(0)).unwrap();
    let s = Staking::from_snapshot(s.into_snapshot()).unwrap();
    assert_eq!(s.period_interval(), 1);
    assert_eq!(s.next_period(), at(1));
}

fn rejected(change: impl FnOnce(&mut Snapshot)) {
    let mut snapshot = busy();
    change(&mut snapshot);
    assert!(!snapshot.is_wf());
    assert!(Staking::from_snapshot(snapshot).is_none());
}

#[test]
fn settings_out_of_range_are_rejected() {
    rejected(|s| s.period_interval = 0);
    rejected(|s| s.period_interval = -7);
    rejected(|s| s.current_period = -1);
    rejected(|s| s.current_period = i64::MAX);
    rejected(|s| s.reward_vault = dec(-1));
}

#[test]
fn an_unstake_delay_above_its_ceiling_is_rejected() {
    rejected(|s| s.unstake_delay = 31);
    rejected(|s| s.max_unstaking_delay = 6);
    let mut snapshot = busy();
    snapshot.unstake_delay = 30;
    assert!(snapshot.is_wf());
}

#[test]
fn an_asset_listed_twice_is_rejected() {
    rejected(|s| {
        s.stakes.push(StakableUnit {
            address: asset(1),
            amount_staked: Decimal::zero(),
            vault: Decimal::zero(),
            reward_amount: dec(1),
            lock: Lock { payment: dec(0), duration: 1 },
            rewards: HashMap::new(),
        })
    });
}

#[test]
fn a_fresh_asset_is_admitted() {
    let mut snapshot = busy();
    snapshot.stakes.push(StakableUnit {
        address: asset(3),
        amount_staked: Decimal::zero(),
        vault: Decimal::zero(),
        reward_amount: dec(1),
        lock: Lock { payment: dec(0), duration: 1 },
        rewards: HashMap::new(),
    });
    assert!(snapshot.is_wf());
}

#[test]
fn a_rate_for_a_period_that_has_not_closed_is_rejected() {
    rejected(|s| {
        s.stakes[0].rewards.insert(2, dec(1));
    });
    rejected(|s| {
        s.stakes[1].rewards.insert(-1, dec(1));
    });
    rejected(|s| {
        s.stakes[1].rewards.insert(i64::MAX, dec(1));
    });
}

#[test]
fn a_negative_custody_balance_is_rejected() {
    rejected(|s| {
        s.stakes[1].vault = dec(-5);
        s.stakes[1].amount_staked = dec(-5);
    });
}

#[test]
fn a_claim_pointer_out_of_range_is_rejected() {
    rejected(|s| s.ids[0].next_period = 0);
    rejected(|s| s.ids[0].next_period = 4);
    rejected(|s| s.ids[1].next_period = i64::MIN);
}

#[test]
fn a_claim_pointer_in_range_is_admitted() {
    for next_period in 1..=3 {
        let mut snapshot = busy();
        snapshot.ids[0].next_period = next_period;
        assert!(snapshot.is_wf());
    }
}

#[test]
fn a_record_with_two_positions_in_one_asset_is_rejected() {
    rejected(|s| {
        s.ids[1].resources.push((
            asset(1),
            Resource { amount_staked: Decimal::zero(), locked_until: None },
        ))
    });
}

#[test]
fn a_position_in_an_unknown_asset_is_rejected() {
    rejected(|s| {
        s.ids[1].resources.push((
            asset(9),
            Resource { amount_staked: Decimal::zero(), locked_until: None },
        ))
    });
}

#[test]
fn a_negative_position_is_rejected() {
    rejected(|s| {
        s.ids[0].resources[0].1.amount_staked = dec(-10);
        s.ids[1].resources[0].1.amount_staked = dec(350);
    });
}

#[test]
fn a_total_that_is_not_the_sum_of_the_positions_is_rejected() {
    rejected(|s| s.stakes[0].amount_staked = dec(341));
    rejected(|s| s.ids[0].resources[0].1.amount_staked = dec(71));
    rejected(|s| {
        s.ids.push(Id {
            resources: vec![(asset(2), Resource { amount_staked: dec(1), locked_until: None })],
            next_period: 3,
        })
    });
}

#[test]
fn a_custody_balance_that_does_not_cover_the_claims_is_rejected() {
    rejected(|s| s.stakes[0].vault = dec(389));
    rejected(|s| s.stakes[0].vault = dec(391));
    rejected(|s| s.unstake_receipts[1] = None);
    rejected(|s| s.stake_transfer_receipts.push(Some(StakeTransferReceipt {
        address: asset(2),
        amount: dec(1),
    })));
}

#[test]
fn a_receipt_for_an_unknown_asset_or_a_negative_amount_is_rejected() {
    rejected(|s| s.unstake_receipts.push(Some(UnstakeReceipt {
        address: asset(9),
        amount: Decimal::zero(),
        redemption_time: at(0),
    })));
    rejected(|s| {
        s.stake_transfer_receipts.push(Some(StakeTransferReceipt {
            address: asset(1),
            amount: dec(-1),
        }));
        s.stakes[0].vault = dec(389);
    });
}

#[test]
fn sums_beyond_the_range_are_rejected() {
    let max = Decimal { lo: u64::MAX, mid: u64::MAX, hi: 0x7fff_ffff_ffff_ffff };
    rejected(|s| {
        s.ids[0].resources[0].1.amount_staked = max;
        s.ids[1].resources[0].1.amount_staked = max;
    });
    rejected(|s| {
        s.unstake_receipts.push(Some(UnstakeReceipt {
            address: asset(1),
            amount: max,
            redemption_time: at(0),
        }));
        s.unstake_receipts.push(Some(UnstakeReceipt {
            address: asset(1),
            amount: max,
            redemption_time: at(0),
        }));
    });
}

#[test]
fn settings_that_no_rule_binds_are_admitted_as_they_are() {
    let mut snapshot = busy();
    snapshot.max_claim_delay = -3;
    snapshot.unstake_delay = -1_000;
    snapshot.max_unstaking_delay = -1;
    snapshot.next_period = at(-100);
    snapshot.dao_controlled = false;
    assert!(snapshot.is_wf());
}
