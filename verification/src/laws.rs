//! What holds of the ledger over any sequence of operations.

use vstd::prelude::*;
use crate::address::ResourceAddress;
use crate::decimal::product;
use crate::error::StakingError;
use crate::invariants::{
    lemma_add_stakable_wf, lemma_advance_wf, lemma_create_id_wf, lemma_finish_unstake_wf,
    lemma_index_of, lemma_lock_stake_wf, lemma_reward_vault_wf, lemma_set_lock_wf,
    lemma_settings_wf, lemma_stake_wf, lemma_start_unstake_wf, lemma_unit_of, lemma_update_id_wf,
};
use crate::model::{
    accrue, accrue_asset, staked_sum, DepositView, IdView, StakableUnitView, StakingView,
};
use crate::time::{days_after, seconds_in_a_day};

verus! {

/// One call of an operation of the ledger, with its arguments.
pub enum Operation {
    UpdatePeriod { now: int },
    CreateId { now: int },
    Stake { address: ResourceAddress, deposit: DepositView, id: u64, now: int },
    LockStake { address: ResourceAddress, id: u64, now: int },
    StartUnstake { id: u64, address: ResourceAddress, amount: int, stake_transfer: bool, now: int },
    FinishUnstake { receipt: u64, now: int },
    UpdateId { id: u64, now: int },
    SetPeriodInterval { new_interval: int },
    FillRewards { amount: int },
    RemoveRewards { amount: int },
    SetMaxClaimDelay { new_delay: int },
    SetUnstakeDelay { new_delay: int },
    SetRewards { address: ResourceAddress, reward: int },
    AddStakable { address: ResourceAddress, reward_amount: int, lock_payment: int, lock_duration: int },
    EditStakable { address: ResourceAddress, reward_amount: int, lock_payment: int, lock_duration: int },
    SetNextPeriodToNow { now: int },
    SetLock { address: ResourceAddress, lock_until: int, id: u64 },
}

/// The state that follows `s` when `op` is called, accepted or rejected.
pub open spec fn after(s: StakingView, op: Operation) -> StakingView {
    match op {
        Operation::UpdatePeriod { now } => s.update_period(now).1,
        Operation::CreateId { now } => s.create_id(now).1,
        Operation::Stake { address, deposit, id, now } => s.stake(address, deposit, id, now).1,
        Operation::LockStake { address, id, now } => s.lock_stake(address, id, now).1,
        Operation::StartUnstake { id, address, amount, stake_transfer, now } => s.start_unstake(
            id,
            address,
            amount,
            stake_transfer,
            now,
        ).1,
        Operation::FinishUnstake { receipt, now } => s.finish_unstake(receipt, now).1,
        Operation::UpdateId { id, now } => s.update_id(id, now).1,
        Operation::SetPeriodInterval { new_interval } => s.set_period_interval(new_interval).1,
        Operation::FillRewards { amount } => s.fill_rewards(amount).1,
        Operation::RemoveRewards { amount } => s.remove_rewards(amount).1,
        Operation::SetMaxClaimDelay { new_delay } => s.set_max_claim_delay(new_delay),
        Operation::SetUnstakeDelay { new_delay } => s.set_unstake_delay(new_delay).1,
        Operation::SetRewards { address, reward } => s.set_rewards(address, reward).1,
        Operation::AddStakable { address, reward_amount, lock_payment, lock_duration } => s.add_stakable(
            address,
            reward_amount,
            lock_payment,
            lock_duration,
        ).1,
        Operation::EditStakable { address, reward_amount, lock_payment, lock_duration } => s.edit_stakable(
            address,
            reward_amount,
            lock_payment,
            lock_duration,
        ).1,
        Operation::SetNextPeriodToNow { now } => s.set_next_period_to_now(now),
        Operation::SetLock { address, lock_until, id } => s.set_lock(address, lock_until, id).1,
    }
}

/// The state that follows `s` when the operations are called one after the other.
pub open spec fn after_all(s: StakingView, ops: Seq<Operation>) -> StakingView
    decreases ops.len(),
{
    if ops.len() == 0 {
        s
    } else {
        after(after_all(s, ops.drop_last()), ops.last())
    }
}

/// What no operation undoes: `t` has every record, asset and receipt of
/// `s` in its place; no claim pointer and no period is lower; every rate
/// recorded in `s` is recorded in `t` with the same value; a receipt used up
/// in `s` is used up in `t`, and one pending in both is the same in both;
/// the ceiling of the unstake delay is the same.
pub open spec fn keeps(s: StakingView, t: StakingView) -> bool {
    &&& s.current_period <= t.current_period
    &&& s.max_unstaking_delay == t.max_unstaking_delay
    &&& s.ids.len() <= t.ids.len()
    &&& forall|k: int|
        0 <= k < s.ids.len() ==> s.ids[k].next_period <= (#[trigger] t.ids[k]).next_period
    &&& s.stakes.len() <= t.stakes.len()
    &&& forall|i: int|
        0 <= i < s.stakes.len() ==> (#[trigger] t.stakes[i]).address == s.stakes[i].address
    &&& forall|i: int, p: int|
        0 <= i < s.stakes.len() && #[trigger] s.stakes[i].rewards.contains_key(p)
            ==> t.stakes[i].rewards.contains_key(p) && t.stakes[i].rewards[p]
            == s.stakes[i].rewards[p]
    &&& s.unstake_receipts.len() <= t.unstake_receipts.len()
    &&& forall|n: int|
        0 <= n < s.unstake_receipts.len() ==> (#[trigger] t.unstake_receipts[n]) is None
            || t.unstake_receipts[n] == s.unstake_receipts[n]
    &&& s.stake_transfer_receipts.len() <= t.stake_transfer_receipts.len()
    &&& forall|n: int|
        0 <= n < s.stake_transfer_receipts.len() ==> (#[trigger] t.stake_transfer_receipts[n]) is None
            || t.stake_transfer_receipts[n] == s.stake_transfer_receipts[n]
}

/// `keeps` carries over two steps.
pub proof fn lemma_keeps_transitive(s: StakingView, m: StakingView, t: StakingView)
    requires
        keeps(s, m),
        keeps(m, t),
    ensures
        keeps(s, t),
{
    assert forall|k: int| 0 <= k < s.ids.len() implies s.ids[k].next_period <= (
    #[trigger] t.ids[k]).next_period by {
        assert(s.ids[k].next_period <= m.ids[k].next_period);
    }
    assert forall|i: int| 0 <= i < s.stakes.len() implies (#[trigger] t.stakes[i]).address
        == s.stakes[i].address by {
        assert(m.stakes[i].address == s.stakes[i].address);
    }
    assert forall|i: int, p: int|
        0 <= i < s.stakes.len() && #[trigger] s.stakes[i].rewards.contains_key(
            p,
        ) implies t.stakes[i].rewards.contains_key(p) && t.stakes[i].rewards[p]
        == s.stakes[i].rewards[p] by {
        assert(m.stakes[i].rewards.contains_key(p));
    }
    assert forall|n: int| 0 <= n < s.unstake_receipts.len() implies (
    #[trigger] t.unstake_receipts[n]) is None || t.unstake_receipts[n]
        == s.unstake_receipts[n] by {
        assert(m.unstake_receipts[n] is None || m.unstake_receipts[n] == s.unstake_receipts[n]);
    }
    assert forall|n: int| 0 <= n < s.stake_transfer_receipts.len() implies (
    #[trigger] t.stake_transfer_receipts[n]) is None || t.stake_transfer_receipts[n]
        == s.stake_transfer_receipts[n] by {
        assert(m.stake_transfer_receipts[n] is None || m.stake_transfer_receipts[n]
            == s.stake_transfer_receipts[n]);
    }
}

/// The lazy advance undoes nothing.
pub proof fn lemma_advance_keeps(s: StakingView, now: int)
    requires
        s.wf(),
        s.advance(now) is Some,
    ensures
        keeps(s, s.advance(now).unwrap()),
        s.advance(now).unwrap().wf(),
{
    lemma_advance_wf(s, now);
    let t = s.advance(now).unwrap();
    assert forall|i: int, p: int|
        0 <= i < s.stakes.len() && #[trigger] s.stakes[i].rewards.contains_key(
            p,
        ) implies t.stakes[i].rewards.contains_key(p) && t.stakes[i].rewards[p]
        == s.stakes[i].rewards[p] by {
        assert(0 <= p < s.current_period);
    }
}

/// Creating a record undoes nothing.
pub proof fn lemma_create_id_keeps(s: StakingView, now: int)
    requires
        s.wf(),
    ensures
        keeps(s, s.create_id(now).1),
{
    let (r, t) = s.create_id(now);
    if r is Ok {
        lemma_advance_keeps(s, now);
        let m = s.advance(now).unwrap();
        assert(keeps(m, t));
        lemma_keeps_transitive(s, m, t);
    }
}

/// Staking undoes nothing.
pub proof fn lemma_stake_keeps(
    s: StakingView,
    address: ResourceAddress,
    deposit: DepositView,
    id: u64,
    now: int,
)
    requires
        s.wf(),
    ensures
        keeps(s, s.stake(address, deposit, id, now).1),
{
    let (r, t) = s.stake(address, deposit, id, now);
    if r is Ok {
        lemma_advance_keeps(s, now);
        let m = s.advance(now).unwrap();
        lemma_unit_of(m, address);
        assert(keeps(m, t));
        lemma_keeps_transitive(s, m, t);
    }
}

/// Locking undoes nothing.
pub proof fn lemma_lock_stake_keeps(s: StakingView, address: ResourceAddress, id: u64, now: int)
    requires
        s.wf(),
    ensures
        keeps(s, s.lock_stake(address, id, now).1),
{
    let (r, t) = s.lock_stake(address, id, now);
    if r is Ok {
        lemma_advance_keeps(s, now);
        let m = s.advance(now).unwrap();
        assert(keeps(m, t));
        lemma_keeps_transitive(s, m, t);
    }
}

/// Requesting an unstake undoes nothing.
pub proof fn lemma_start_unstake_keeps(
    s: StakingView,
    id: u64,
    address: ResourceAddress,
    amount: int,
    stake_transfer: bool,
    now: int,
)
    requires
        s.wf(),
    ensures
        keeps(s, s.start_unstake(id, address, amount, stake_transfer, now).1),
{
    let (r, t) = s.start_unstake(id, address, amount, stake_transfer, now);
    if r is Ok {
        lemma_advance_keeps(s, now);
        let m = s.advance(now).unwrap();
        assert(m.ids[id - 1].resources.contains_key(address));
        lemma_unit_of(m, address);
        assert(keeps(m, t));
        lemma_keeps_transitive(s, m, t);
    }
}

/// Redeeming an unstake receipt undoes nothing.
pub proof fn lemma_finish_unstake_keeps(s: StakingView, receipt: u64, now: int)
    requires
        s.wf(),
    ensures
        keeps(s, s.finish_unstake(receipt, now).1),
{
    let (r, t) = s.finish_unstake(receipt, now);
    if r is Ok {
        lemma_advance_keeps(s, now);
        let m = s.advance(now).unwrap();
        assert(m.unstake_receipts[receipt - 1] is Some);
        lemma_unit_of(m, m.unstake_receipt(receipt).address);
        assert(keeps(m, t));
        lemma_keeps_transitive(s, m, t);
    }
}

/// Claiming undoes nothing.
pub proof fn lemma_update_id_keeps(s: StakingView, id: u64, now: int)
    requires
        s.wf(),
    ensures
        keeps(s, s.update_id(id, now).1),
{
    let (r, t) = s.update_id(id, now);
    if s.has_id(id) && s.advance(now) is Some {
        lemma_advance_keeps(s, now);
        let m = s.advance(now).unwrap();
        if m.claimable_periods(id) > 0 {
            assert(m.ids[id - 1].next_period <= m.current_period + 1);
            assert(keeps(m, t));
            lemma_keeps_transitive(s, m, t);
        }
    }
}

/// Changing a reward policy undoes nothing.
pub proof fn lemma_policy_keeps(s: StakingView, op: Operation)
    requires
        s.wf(),
        op is SetRewards || op is EditStakable || op is AddStakable || op is SetLock,
    ensures
        keeps(s, after(s, op)),
{
    match op {
        Operation::SetRewards { address, reward } => {
            if s.is_stakable(address) {
                lemma_unit_of(s, address);
            }
        },
        Operation::EditStakable { address, reward_amount, lock_payment, lock_duration } => {
            if s.is_stakable(address) {
                lemma_unit_of(s, address);
            }
        },
        _ => {},
    }
}

/// An operation takes a well-formed ledger to a well-formed ledger and
/// undoes nothing.
pub proof fn lemma_step(s: StakingView, op: Operation)
    requires
        s.wf(),
    ensures
        after(s, op).wf(),
        keeps(s, after(s, op)),
{
    let t = after(s, op);
    match op {
        Operation::UpdatePeriod { now } => {
            if s.advance(now) is Some {
                lemma_advance_keeps(s, now);
            }
        },
        Operation::CreateId { now } => {
            lemma_create_id_wf(s, now);
            lemma_create_id_keeps(s, now);
        },
        Operation::Stake { address, deposit, id, now } => {
            lemma_stake_wf(s, address, deposit, id, now);
            lemma_stake_keeps(s, address, deposit, id, now);
        },
        Operation::LockStake { address, id, now } => {
            lemma_lock_stake_wf(s, address, id, now);
            lemma_lock_stake_keeps(s, address, id, now);
        },
        Operation::StartUnstake { id, address, amount, stake_transfer, now } => {
            lemma_start_unstake_wf(s, id, address, amount, stake_transfer, now);
            lemma_start_unstake_keeps(s, id, address, amount, stake_transfer, now);
        },
        Operation::FinishUnstake { receipt, now } => {
            lemma_finish_unstake_wf(s, receipt, now);
            lemma_finish_unstake_keeps(s, receipt, now);
        },
        Operation::UpdateId { id, now } => {
            lemma_update_id_wf(s, id, now);
            lemma_update_id_keeps(s, id, now);
        },
        Operation::SetPeriodInterval { new_interval } => {
            if new_interval > 0 {
                lemma_settings_wf(s, t);
            }
        },
        Operation::FillRewards { amount } => {
            if s.fill_rewards(amount).0 is Ok {
                lemma_reward_vault_wf(s, s.reward_vault + amount);
            }
        },
        Operation::RemoveRewards { amount } => {
            if s.remove_rewards(amount).0 is Ok {
                lemma_reward_vault_wf(s, s.reward_vault - amount);
            }
        },
        Operation::SetMaxClaimDelay { new_delay } => {
            lemma_settings_wf(s, t);
        },
        Operation::SetUnstakeDelay { new_delay } => {
            if s.set_unstake_delay(new_delay).0 is Ok {
                lemma_settings_wf(s, t);
            }
        },
        Operation::SetRewards { address, reward } => {
            lemma_policy_keeps(s, op);
            if s.is_stakable(address) {
                lemma_unit_of(s, address);
                lemma_settings_wf(s, t);
            }
        },
        Operation::AddStakable { address, reward_amount, lock_payment, lock_duration } => {
            lemma_policy_keeps(s, op);
            lemma_add_stakable_wf(s, address, reward_amount, lock_payment, lock_duration);
        },
        Operation::EditStakable { address, reward_amount, lock_payment, lock_duration } => {
            lemma_policy_keeps(s, op);
            if s.is_stakable(address) {
                lemma_unit_of(s, address);
                lemma_settings_wf(s, t);
            }
        },
        Operation::SetNextPeriodToNow { now } => {
            lemma_settings_wf(s, t);
        },
        Operation::SetLock { address, lock_until, id } => {
            lemma_policy_keeps(s, op);
            lemma_set_lock_wf(s, address, lock_until, id);
        },
    }
}

/// Any sequence of operations takes a well-formed ledger to a well-formed
/// ledger and undoes nothing.
pub proof fn lemma_steps(s: StakingView, ops: Seq<Operation>)
    requires
        s.wf(),
    ensures
        after_all(s, ops).wf(),
        keeps(s, after_all(s, ops)),
    decreases ops.len(),
{
    if ops.len() > 0 {
        lemma_steps(s, ops.drop_last());
        lemma_step(after_all(s, ops.drop_last()), ops.last());
        lemma_keeps_transitive(s, after_all(s, ops.drop_last()), after_all(s, ops));
    }
}

/// After any sequence of operations, what is staked of an asset in total
/// is the sum of what the records hold of it.
pub proof fn law_conservation(s: StakingView, ops: Seq<Operation>, address: ResourceAddress)
    requires
        s.wf(),
        after_all(s, ops).is_stakable(address),
    ensures
        after_all(s, ops).unit(address).amount_staked == staked_sum(after_all(s, ops).ids, address),
{
    lemma_steps(s, ops);
    lemma_unit_of(after_all(s, ops), address);
}

/// After any sequence of operations, an asset's custody vault holds what
/// is staked of it and what the pending receipts claim of it.
pub proof fn law_custody(s: StakingView, ops: Seq<Operation>, address: ResourceAddress)
    requires
        s.wf(),
        after_all(s, ops).is_stakable(address),
    ensures
        after_all(s, ops).unit(address).vault == after_all(s, ops).unit(address).amount_staked
            + after_all(s, ops).pending(address),
{
    lemma_steps(s, ops);
    lemma_unit_of(after_all(s, ops), address);
}

/// The ceiling of the unstake delay stays as it was set at construction,
/// and after any sequence of operations the unstake delay is at most the
/// ceiling: no unstake receipt is issued with a longer delay.
pub proof fn law_unstake_delay_capped(s: StakingView, ops: Seq<Operation>)
    requires
        s.wf(),
    ensures
        after_all(s, ops).max_unstaking_delay == s.max_unstaking_delay,
        after_all(s, ops).unstake_delay <= s.max_unstaking_delay,
{
    lemma_steps(s, ops);
}

/// A new ledger starts with an unstake delay that is at most its ceiling.
pub proof fn law_initial_delay_capped(
    rewards: int,
    period_interval: int,
    dao_controlled: bool,
    max_unstaking_delay: int,
    now: int,
)
    requires
        StakingView::new(rewards, period_interval, dao_controlled, max_unstaking_delay, now) is Ok,
    ensures
        StakingView::new(
            rewards,
            period_interval,
            dao_controlled,
            max_unstaking_delay,
            now,
        ).unwrap().wf(),
        StakingView::new(
            rewards,
            period_interval,
            dao_controlled,
            max_unstaking_delay,
            now,
        ).unwrap().unstake_delay <= max_unstaking_delay,
{
}

/// Over any sequence of operations a record stays, and its claim pointer
/// does not decrease.
pub proof fn law_claim_pointer_monotonic(s: StakingView, ops: Seq<Operation>, id: u64)
    requires
        s.wf(),
        s.has_id(id),
    ensures
        after_all(s, ops).has_id(id),
        s.id(id).next_period <= after_all(s, ops).id(id).next_period,
{
    lemma_steps(s, ops);
}

/// A rate recorded for an asset and a period is there, unchanged, after
/// any sequence of operations.
pub proof fn law_rate_immutable(
    s: StakingView,
    ops: Seq<Operation>,
    address: ResourceAddress,
    period: int,
)
    requires
        s.wf(),
        s.is_stakable(address),
        s.unit(address).rewards.contains_key(period),
    ensures
        after_all(s, ops).is_stakable(address),
        after_all(s, ops).unit(address).rewards.contains_key(period),
        after_all(s, ops).unit(address).rewards[period] == s.unit(address).rewards[period],
{
    lemma_steps(s, ops);
    let t = after_all(s, ops);
    lemma_unit_of(s, address);
    let i = s.index_of(address);
    assert(t.stakes[i].address == address);
    lemma_index_of(t, i);
}

/// After a lock is taken, locking the same position again before that
/// lock has run out is rejected as already locked.
pub proof fn law_lock_exclusive(
    s: StakingView,
    address: ResourceAddress,
    id: u64,
    first: int,
    second: int,
)
    requires
        s.wf(),
        s.lock_stake(address, id, first).0 is Ok,
        second < days_after(first, s.unit(address).lock_duration).unwrap(),
    ensures
        s.lock_stake(address, id, first).1.lock_stake(address, id, second).0 == Err::<
            int,
            StakingError,
        >(StakingError::AlreadyLocked),
{
    lemma_advance_wf(s, first);
    let m = s.advance(first).unwrap();
    let t = s.lock_stake(address, id, first).1;
    lemma_unit_of(s, address);
    assert(m.stakes[s.index_of(address)].lock_duration == s.unit(address).lock_duration);
    assert(t.stakes[m.index_of(address)].address == address);
    assert(t.is_stakable(address));
}

/// Once an unstake receipt is redeemed, redeeming it again is rejected,
/// whatever was called in between.
pub proof fn law_receipt_single_use(
    s: StakingView,
    receipt: u64,
    now: int,
    ops: Seq<Operation>,
    later: int,
)
    requires
        s.wf(),
        s.finish_unstake(receipt, now).0 is Ok,
    ensures
        after_all(s.finish_unstake(receipt, now).1, ops).finish_unstake(receipt, later).0 == Err::<
            (ResourceAddress, int),
            StakingError,
        >(StakingError::ReceiptNotFound),
{
    let t = s.finish_unstake(receipt, now).1;
    lemma_finish_unstake_wf(s, receipt, now);
    lemma_steps(t, ops);
    assert(t.unstake_receipts[receipt - 1] is None);
    assert(after_all(t, ops).unstake_receipts[receipt - 1] is None);
}

/// What one asset owes over a window depends only on the rates recorded
/// inside the window.
pub proof fn lemma_accrue_asset_window(
    acc: Option<int>,
    a: Map<int, int>,
    b: Map<int, int>,
    staked: int,
    current: int,
    weeks: int,
)
    requires
        forall|p: int|
            current - weeks <= p < current ==> (#[trigger] a.contains_key(p)) == b.contains_key(p)
                && (a.contains_key(p) ==> a[p] == b[p]),
    ensures
        accrue_asset(acc, a, staked, current, weeks) == accrue_asset(acc, b, staked, current, weeks),
    decreases weeks,
{
    if weeks > 0 {
        lemma_accrue_asset_window(acc, a, b, staked, current, weeks - 1);
    }
}

/// A record that is more than `max_claim_delay` periods behind is paid
/// for exactly the `max_claim_delay` periods before the current one.
/// Its claim pointer moves past all of them, so the older periods are
/// forfeited; and the payout is the same whatever rates those older periods had.
pub proof fn law_claim_bound(s: StakingView, id: u64, now: int, other: Seq<StakableUnitView>)
    requires
        s.wf(),
        s.update_id(id, now).0 is Ok,
        s.advance(now).unwrap().current_period - s.id(id).next_period + 1 > s.max_claim_delay,
        other.len() == s.stakes.len(),
        forall|i: int|
            0 <= i < other.len() ==> (#[trigger] other[i]).address == s.advance(
                now,
            ).unwrap().stakes[i].address,
        forall|i: int, p: int|
            0 <= i < other.len() && s.advance(now).unwrap().current_period - s.max_claim_delay <= p
                < s.advance(now).unwrap().current_period ==> (#[trigger] other[i].rewards.contains_key(
                p,
            )) == s.advance(now).unwrap().stakes[i].rewards.contains_key(p) && (
            other[i].rewards.contains_key(p) ==> other[i].rewards[p] == s.advance(
                now,
            ).unwrap().stakes[i].rewards[p]),
    ensures
        s.update_id(id, now).0 == Ok::<int, StakingError>(
            accrue(
                s.advance(now).unwrap().stakes,
                s.id(id),
                s.advance(now).unwrap().current_period,
                s.max_claim_delay,
                s.stakes.len() as int,
            ).unwrap(),
        ),
        s.update_id(id, now).0 == Ok::<int, StakingError>(
            accrue(
                other,
                s.id(id),
                s.advance(now).unwrap().current_period,
                s.max_claim_delay,
                s.stakes.len() as int,
            ).unwrap(),
        ),
        s.update_id(id, now).1.id(id).next_period == s.advance(now).unwrap().current_period + 1,
{
    lemma_advance_wf(s, now);
    let m = s.advance(now).unwrap();
    lemma_accrue_window(m.stakes, other, s.id(id), m.current_period, s.max_claim_delay, m.stakes.len() as int);
}

/// What the first `n` assets owe over a window depends only on the rates
/// recorded inside the window.
pub proof fn lemma_accrue_window(
    a: Seq<StakableUnitView>,
    b: Seq<StakableUnitView>,
    record: IdView,
    current: int,
    weeks: int,
    n: int,
)
    requires
        n <= a.len() == b.len(),
        forall|i: int| 0 <= i < a.len() ==> (#[trigger] b[i]).address == a[i].address,
        forall|i: int, p: int|
            0 <= i < a.len() && current - weeks <= p < current ==> (
            #[trigger] b[i].rewards.contains_key(p)) == a[i].rewards.contains_key(p) && (
            b[i].rewards.contains_key(p) ==> b[i].rewards[p] == a[i].rewards[p]),
    ensures
        accrue(a, record, current, weeks, n) == accrue(b, record, current, weeks, n),
    decreases n,
{
    if n > 0 {
        lemma_accrue_window(a, b, record, current, weeks, n - 1);
        assert(b[n - 1].address == a[n - 1].address);
        assert forall|p: int| current - weeks <= p < current implies (
        #[trigger] a[n - 1].rewards.contains_key(p)) == b[n - 1].rewards.contains_key(p) && (a[n
            - 1].rewards.contains_key(p) ==> a[n - 1].rewards[p] == b[n - 1].rewards[p]) by {
            assert(b[n - 1].rewards.contains_key(p) == a[n - 1].rewards.contains_key(p));
        }
        lemma_accrue_asset_window(
            accrue(a, record, current, weeks, n - 1),
            a[n - 1].rewards,
            b[n - 1].rewards,
            record.staked(a[n - 1].address),
            current,
            weeks,
        );
    }
}

/// What one asset owes a position of `staked` over the `weeks` periods
/// before `current`: for each period with a recorded rate, the rate times
/// the amount staked, rounded toward zero.
pub open spec fn asset_rewards(rewards: Map<int, int>, staked: int, current: int, weeks: int) -> int
    decreases weeks,
{
    if weeks <= 0 {
        0
    } else {
        asset_rewards(rewards, staked, current, weeks - 1) + if rewards.contains_key(
            current - weeks,
        ) {
            product(rewards[current - weeks], staked)
        } else {
            0
        }
    }
}

/// What the first `n` assets owe a record over the `weeks` periods before `current`.
pub open spec fn rewards(
    stakes: Seq<StakableUnitView>,
    record: IdView,
    current: int,
    weeks: int,
    n: int,
) -> int
    decreases n,
{
    if n <= 0 {
        0
    } else {
        rewards(stakes, record, current, weeks, n - 1) + asset_rewards(
            stakes[n - 1].rewards,
            record.staked(stakes[n - 1].address),
            current,
            weeks,
        )
    }
}

/// Where the running total of one asset stays in range, it is the total
/// before plus what the asset owes.
pub proof fn lemma_accrue_asset_is_sum(
    acc: Option<int>,
    rates: Map<int, int>,
    staked: int,
    current: int,
    weeks: int,
)
    requires
        accrue_asset(acc, rates, staked, current, weeks) is Some,
    ensures
        acc is Some,
        accrue_asset(acc, rates, staked, current, weeks).unwrap() == acc.unwrap() + asset_rewards(
            rates,
            staked,
            current,
            weeks,
        ),
    decreases weeks,
{
    if weeks > 0 {
        lemma_accrue_asset_is_sum(acc, rates, staked, current, weeks - 1);
    }
}

/// What a claim pays is, over every asset and every claimable
/// period with a recorded rate, the sum of the rate times the amount the
/// record has staked, each product rounded toward zero.
pub proof fn law_payout_is_sum(s: StakingView, id: u64, now: int)
    requires
        s.wf(),
        s.update_id(id, now).0 is Ok,
    ensures
        s.update_id(id, now).0.unwrap() == rewards(
            s.advance(now).unwrap().stakes,
            s.id(id),
            s.advance(now).unwrap().current_period,
            s.advance(now).unwrap().claimable_periods(id),
            s.stakes.len() as int,
        ),
{
    lemma_advance_wf(s, now);
    let m = s.advance(now).unwrap();
    lemma_accrue_is_sum(
        m.stakes,
        m.id(id),
        m.current_period,
        m.claimable_periods(id),
        m.stakes.len() as int,
    );
}

/// Where the running total over the assets stays in range, it is what the
/// assets owe.
pub proof fn lemma_accrue_is_sum(
    stakes: Seq<StakableUnitView>,
    record: IdView,
    current: int,
    weeks: int,
    n: int,
)
    requires
        accrue(stakes, record, current, weeks, n) is Some,
    ensures
        accrue(stakes, record, current, weeks, n).unwrap() == rewards(
            stakes,
            record,
            current,
            weeks,
            n,
        ),
    decreases n,
{
    if n > 0 {
        lemma_accrue_asset_is_sum(
            accrue(stakes, record, current, weeks, n - 1),
            stakes[n - 1].rewards,
            record.staked(stakes[n - 1].address),
            current,
            weeks,
        );
        lemma_accrue_is_sum(stakes, record, current, weeks, n - 1);
    }
}

/// Whether `op` does not set the period clock by hand.
pub open spec fn leaves_clock(op: Operation) -> bool {
    !(op is SetNextPeriodToNow)
}

/// Whether `s` accepts `op`.
pub open spec fn accepts(s: StakingView, op: Operation) -> bool {
    match op {
        Operation::UpdatePeriod { now } => s.update_period(now).0 is Ok,
        Operation::CreateId { now } => s.create_id(now).0 is Ok,
        Operation::Stake { address, deposit, id, now } => s.stake(address, deposit, id, now).0 is Ok,
        Operation::LockStake { address, id, now } => s.lock_stake(address, id, now).0 is Ok,
        Operation::StartUnstake { id, address, amount, stake_transfer, now } => s.start_unstake(
            id,
            address,
            amount,
            stake_transfer,
            now,
        ).0 is Ok,
        Operation::FinishUnstake { receipt, now } => s.finish_unstake(receipt, now).0 is Ok,
        Operation::UpdateId { id, now } => s.update_id(id, now).0 is Ok,
        Operation::SetPeriodInterval { new_interval } => s.set_period_interval(new_interval).0 is Ok,
        Operation::FillRewards { amount } => s.fill_rewards(amount).0 is Ok,
        Operation::RemoveRewards { amount } => s.remove_rewards(amount).0 is Ok,
        Operation::SetMaxClaimDelay { new_delay } => true,
        Operation::SetUnstakeDelay { new_delay } => s.set_unstake_delay(new_delay).0 is Ok,
        Operation::SetRewards { address, reward } => s.set_rewards(address, reward).0 is Ok,
        Operation::AddStakable { address, reward_amount, lock_payment, lock_duration } => s.add_stakable(
            address,
            reward_amount,
            lock_payment,
            lock_duration,
        ).0 is Ok,
        Operation::EditStakable { address, reward_amount, lock_payment, lock_duration } => s.edit_stakable(
            address,
            reward_amount,
            lock_payment,
            lock_duration,
        ).0 is Ok,
        Operation::SetNextPeriodToNow { now } => true,
        Operation::SetLock { address, lock_until, id } => s.set_lock(address, lock_until, id).0 is Ok,
    }
}

/// A rejected operation leaves the ledger as it was. The
/// one exception is a claim that is rejected after its claim pointer has
/// moved: it keeps the advance and the new pointer, and nothing else.
pub proof fn law_rejected_changes_nothing(s: StakingView, op: Operation)
    requires
        s.wf(),
        !accepts(s, op),
    ensures
        after(s, op) == s || (op matches Operation::UpdateId { id, now } && s.has_id(id)
            && s.advance(now) is Some && s.advance(now).unwrap().claimable_periods(id) > 0
            && after(s, op) == s.advance(now).unwrap().with_id(
            id,
            s.advance(now).unwrap().id(id).with_next_period(
                s.advance(now).unwrap().current_period + 1,
            ),
        )),
{
}

/// No operation lowers the current period, and none but the
/// forced rollover moves the start of the next period back. Closing a
/// period counts it up by exactly one, however many intervals have gone by.
pub proof fn law_clock_monotonic(s: StakingView, op: Operation)
    requires
        s.wf(),
    ensures
        s.current_period <= after(s, op).current_period <= s.current_period + 1,
        leaves_clock(op) ==> s.next_period <= after(s, op).next_period,
{
    lemma_step(s, op);
    match op {
        Operation::UpdatePeriod { now } => lemma_advance_clock(s, now),
        Operation::CreateId { now } => lemma_advance_clock(s, now),
        Operation::Stake { address, deposit, id, now } => lemma_advance_clock(s, now),
        Operation::LockStake { address, id, now } => lemma_advance_clock(s, now),
        Operation::StartUnstake { id, address, amount, stake_transfer, now } => lemma_advance_clock(
            s,
            now,
        ),
        Operation::FinishUnstake { receipt, now } => lemma_advance_clock(s, now),
        Operation::UpdateId { id, now } => lemma_advance_clock(s, now),
        _ => {},
    }
}

/// The lazy advance moves the start of the next period forward, past `now`
/// where it closes a period.
pub proof fn lemma_advance_clock(s: StakingView, now: int)
    requires
        s.wf(),
    ensures
        s.advance(now) is Some ==> s.next_period <= s.advance(now).unwrap().next_period && now
            < s.advance(now).unwrap().next_period,
{
    if s.advance(now) is Some && now >= s.next_period {
        let span = s.period_interval * seconds_in_a_day();
        let gone = now - s.next_period;
        let elapsed = s.elapsed_periods(now);
        assert(span > 0) by (nonlinear_arith)
            requires
                span == s.period_interval * 86_400,
                s.period_interval > 0,
        ;
        vstd::arithmetic::div_mod::lemma_fundamental_div_mod(gone, span);
        vstd::arithmetic::div_mod::lemma_mod_bound(gone, span);
        assert((1 + elapsed) * s.period_interval * seconds_in_a_day() == span + span * elapsed)
            by (nonlinear_arith)
            requires
                span == s.period_interval * seconds_in_a_day(),
        ;
    }
}

/// Closing a period records for every asset the reward the
/// period pays divided by what is staked of the asset, or zero where
/// nothing is staked, under the number of the period that closes.
pub proof fn law_closing_rate(s: StakingView, now: int, address: ResourceAddress)
    requires
        s.wf(),
        s.is_stakable(address),
        now >= s.next_period,
        s.update_period(now).0 is Ok,
    ensures
        s.update_period(now).1.is_stakable(address),
        s.update_period(now).1.unit(address).rewards.contains_key(s.current_period),
        s.update_period(now).1.unit(address).rewards[s.current_period] == if s.unit(
            address,
        ).amount_staked > 0 {
            crate::decimal::ratio(s.unit(address).reward_amount, s.unit(address).amount_staked)
        } else {
            0
        },
        !s.unit(address).rewards.contains_key(s.current_period),
{
    lemma_advance_wf(s, now);
    lemma_unit_of(s, address);
    let i = s.index_of(address);
    if s.stakes[i].rewards.contains_key(s.current_period) {
        assert(0 <= s.current_period < s.current_period);
    }
}

/// The advance is idempotent: advancing again at the same time changes nothing.
pub proof fn law_advance_idempotent(s: StakingView, now: int)
    requires
        s.wf(),
        s.advance(now) is Some,
    ensures
        s.advance(now).unwrap().advance(now) == s.advance(now),
{
    lemma_advance_clock(s, now);
}

/// After any sequence of operations no record holds more of an asset than
/// is staked of it in total, and none holds a negative amount.
pub proof fn law_position_within_total(
    s: StakingView,
    ops: Seq<Operation>,
    id: u64,
    address: ResourceAddress,
)
    requires
        s.wf(),
        after_all(s, ops).has_id(id),
        after_all(s, ops).is_stakable(address),
    ensures
        0 <= after_all(s, ops).id(id).staked(address) <= after_all(s, ops).unit(
            address,
        ).amount_staked,
{
    lemma_steps(s, ops);
    crate::invariants::lemma_position_bounds(after_all(s, ops), id, address);
}

/// Whether `op` asks to unstake from the position of record `id` in
/// `address` at a time at which that position is not locked.
pub open spec fn unstakes_unlocked(
    s: StakingView,
    op: Operation,
    id: u64,
    address: ResourceAddress,
) -> bool {
    match op {
        Operation::StartUnstake { id: from, address: of, now, .. } => from == id && of == address
            && !s.id(id).locked_at(address, now),
        _ => false,
    }
}

/// A position shrinks only by an unstake request made while it is not
/// locked: no other operation, and no unstake request made under a lock
/// that has not run out, takes anything from it.
pub proof fn law_locked_stake_stays(s: StakingView, op: Operation, id: u64, address: ResourceAddress)
    requires
        s.wf(),
        s.has_id(id),
        !unstakes_unlocked(s, op, id, address),
    ensures
        after(s, op).has_id(id),
        s.id(id).staked(address) <= after(s, op).id(id).staked(address),
{
    lemma_step(s, op);
    match op {
        Operation::CreateId { now } => {
            if s.create_id(now).0 is Ok {
                lemma_advance_wf(s, now);
            }
        },
        Operation::Stake { address: of, deposit, id: to, now } => {
            if s.stake(of, deposit, to, now).0 is Ok {
                lemma_advance_wf(s, now);
                match deposit {
                    DepositView::Tokens(_, _) => {},
                    DepositView::TransferReceipt(receipt) => {
                        assert(s.stake_transfer_receipts[receipt - 1] is Some);
                    },
                }
            }
        },
        Operation::LockStake { address: of, id: on, now } => {
            if s.lock_stake(of, on, now).0 is Ok {
                lemma_advance_wf(s, now);
            }
        },
        Operation::StartUnstake { id: from, address: of, amount, stake_transfer, now } => {
            if s.start_unstake(from, of, amount, stake_transfer, now).0 is Ok {
                lemma_advance_wf(s, now);
            }
        },
        Operation::FinishUnstake { receipt, now } => {
            if s.finish_unstake(receipt, now).0 is Ok {
                lemma_advance_wf(s, now);
            }
        },
        Operation::UpdateId { id: of, now } => {
            if s.has_id(of) && s.advance(now) is Some {
                lemma_advance_wf(s, now);
            }
        },
        Operation::UpdatePeriod { now } => {
            if s.advance(now) is Some {
                lemma_advance_wf(s, now);
            }
        },
        _ => {},
    }
}

/// What the records are owed in all for one period of an asset at `rate`,
/// on the positions they hold: for each record the rate times the amount it
/// has staked, rounded toward zero.
pub open spec fn payable(ids: Seq<IdView>, address: ResourceAddress, rate: int) -> int
    decreases ids.len(),
{
    if ids.len() == 0 {
        0
    } else {
        payable(ids.drop_last(), address, rate) + product(rate, ids.last().staked(address))
    }
}

/// Rounding toward zero never pays more than the exact product: where
/// neither the rate nor a position is negative, what the records are owed
/// is at most the rate times what they hold in all.
pub proof fn lemma_payable_bounded(ids: Seq<IdView>, address: ResourceAddress, rate: int)
    requires
        rate >= 0,
        forall|k: int| 0 <= k < ids.len() ==> (#[trigger] ids[k]).staked(address) >= 0,
    ensures
        0 <= payable(ids, address, rate),
        payable(ids, address, rate) * crate::decimal::unit() <= rate * staked_sum(ids, address),
    decreases ids.len(),
{
    if ids.len() > 0 {
        lemma_payable_bounded(ids.drop_last(), address, rate);
        let held = ids.last().staked(address);
        let unit = crate::decimal::unit();
        let exact = rate * held;
        assert(exact >= 0) by (nonlinear_arith)
            requires
                exact == rate * held,
                rate >= 0,
                held >= 0,
        ;
        vstd::arithmetic::div_mod::lemma_fundamental_div_mod(exact, unit);
        vstd::arithmetic::div_mod::lemma_mod_bound(exact, unit);
        vstd::arithmetic::div_mod::lemma_div_pos_is_pos(exact, unit);
        assert(product(rate, held) == exact / unit);
        assert(rate * staked_sum(ids, address) == rate * staked_sum(ids.drop_last(), address)
            + rate * held) by (nonlinear_arith)
            requires
                staked_sum(ids, address) == staked_sum(ids.drop_last(), address) + held,
        ;
        assert(payable(ids, address, rate) * unit == payable(ids.drop_last(), address, rate) * unit
            + (exact / unit) * unit) by (nonlinear_arith)
            requires
                payable(ids, address, rate) == payable(ids.drop_last(), address, rate) + exact
                    / unit,
        ;
        assert((exact / unit) * unit == unit * (exact / unit)) by (nonlinear_arith);
    }
}

/// A period pays no more than its budget: at the rate that closing a
/// period records for an asset, the records are owed in all, on the
/// positions they hold at the close, at most what the period pays for the
/// asset, where that is not negative.
pub proof fn law_period_within_budget(s: StakingView, address: ResourceAddress)
    requires
        s.wf(),
        s.is_stakable(address),
        s.unit(address).reward_amount >= 0,
    ensures
        0 <= payable(s.ids, address, s.unit(address).closing_rate()) <= s.unit(
            address,
        ).reward_amount,
{
    lemma_unit_of(s, address);
    let unit = s.unit(address);
    let staked = unit.amount_staked;
    let budget = unit.reward_amount;
    let rate = unit.closing_rate();
    let scale = crate::decimal::unit();
    assert(staked == staked_sum(s.ids, address));
    assert forall|k: int| 0 <= k < s.ids.len() implies (#[trigger] s.ids[k]).staked(address)
        >= 0 by {
        if s.ids[k].resources.contains_key(address) {
            assert(s.ids[k].resources[address].amount_staked >= 0);
        }
    }
    if staked > 0 {
        let exact = budget * scale;
        assert(exact >= 0) by (nonlinear_arith)
            requires
                exact == budget * scale,
                budget >= 0,
                scale > 0,
        ;
        vstd::arithmetic::div_mod::lemma_fundamental_div_mod(exact, staked);
        vstd::arithmetic::div_mod::lemma_mod_bound(exact, staked);
        vstd::arithmetic::div_mod::lemma_div_pos_is_pos(exact, staked);
        assert(rate == exact / staked);
        lemma_payable_bounded(s.ids, address, rate);
        let owed = payable(s.ids, address, rate);
        assert(rate * staked <= exact) by (nonlinear_arith)
            requires
                exact == staked * (exact / staked) + exact % staked,
                0 <= exact % staked,
                rate == exact / staked,
        ;
        assert(owed <= budget) by (nonlinear_arith)
            requires
                owed * scale <= rate * staked,
                rate * staked <= budget * scale,
                scale > 0,
        ;
    } else {
        lemma_payable_bounded(s.ids, address, 0);
        assert(0 * staked_sum(s.ids, address) == 0) by (nonlinear_arith);
    }
}

/// A position grows only in a record that has nothing left to claim: after
/// an operation that added to a position, the record's claim pointer is
/// past every closed period.
pub proof fn law_stake_grows_only_when_claimed(
    s: StakingView,
    op: Operation,
    id: u64,
    address: ResourceAddress,
)
    requires
        s.wf(),
        s.has_id(id),
        after(s, op).id(id).staked(address) > s.id(id).staked(address),
    ensures
        after(s, op).id(id).next_period == after(s, op).current_period + 1,
{
    lemma_step(s, op);
    match op {
        Operation::CreateId { now } => {
            if s.create_id(now).0 is Ok {
                lemma_advance_wf(s, now);
            }
        },
        Operation::Stake { address: of, deposit, id: to, now } => {
            if s.stake(of, deposit, to, now).0 is Ok {
                lemma_advance_wf(s, now);
            }
        },
        Operation::LockStake { address: of, id: on, now } => {
            if s.lock_stake(of, on, now).0 is Ok {
                lemma_advance_wf(s, now);
            }
        },
        Operation::StartUnstake { id: from, address: of, amount, stake_transfer, now } => {
            if s.start_unstake(from, of, amount, stake_transfer, now).0 is Ok {
                lemma_advance_wf(s, now);
            }
        },
        Operation::FinishUnstake { receipt, now } => {
            if s.finish_unstake(receipt, now).0 is Ok {
                lemma_advance_wf(s, now);
            }
        },
        Operation::UpdateId { id: of, now } => {
            if s.has_id(of) && s.advance(now) is Some {
                lemma_advance_wf(s, now);
            }
        },
        Operation::UpdatePeriod { now } => {
            if s.advance(now) is Some {
                lemma_advance_wf(s, now);
            }
        },
        _ => {},
    }
}

/// While a record has not claimed the period that closed last in `s`, it
/// holds no more than it held in `s`, whatever is called.
pub proof fn law_unclaimed_position_never_grows(
    s: StakingView,
    ops: Seq<Operation>,
    id: u64,
    address: ResourceAddress,
)
    requires
        s.wf(),
        s.has_id(id),
        after_all(s, ops).id(id).next_period <= s.current_period,
    ensures
        after_all(s, ops).has_id(id),
        0 <= after_all(s, ops).id(id).staked(address) <= s.id(id).staked(address),
    decreases ops.len(),
{
    lemma_steps(s, ops);
    let t = after_all(s, ops);
    if t.ids[id - 1].resources.contains_key(address) {
        assert(t.ids[id - 1].resources[address].amount_staked >= 0);
    }
    if ops.len() > 0 {
        let u = after_all(s, ops.drop_last());
        lemma_steps(s, ops.drop_last());
        lemma_step(u, ops.last());
        assert(u.ids[id - 1].next_period <= t.ids[id - 1].next_period);
        law_unclaimed_position_never_grows(s, ops.drop_last(), id, address);
        if t.id(id).staked(address) > u.id(id).staked(address) {
            law_stake_grows_only_when_claimed(u, ops.last(), id, address);
        }
    }
}

/// At a rate that is not negative, a smaller position is owed no more.
pub proof fn lemma_product_ordered(rate: int, less: int, more: int)
    requires
        rate >= 0,
        0 <= less <= more,
    ensures
        0 <= product(rate, less) <= product(rate, more),
{
    let unit = crate::decimal::unit();
    assert(0 <= rate * less <= rate * more) by (nonlinear_arith)
        requires
            rate >= 0,
            0 <= less <= more,
    ;
    vstd::arithmetic::div_mod::lemma_div_is_ordered(rate * less, rate * more, unit);
    vstd::arithmetic::div_mod::lemma_div_pos_is_pos(rate * less, unit);
}

/// What the first `n` records are paid for one period of an asset at
/// `rate`, where record `k` claims it in the state that `runs[k]` leads to
/// from `s`.
pub open spec fn claimed(
    s: StakingView,
    runs: Seq<Seq<Operation>>,
    address: ResourceAddress,
    rate: int,
    n: int,
) -> int
    decreases n,
{
    if n <= 0 {
        0
    } else {
        claimed(s, runs, address, rate, n - 1) + product(
            rate,
            after_all(s, runs[n - 1]).ids[n - 1].staked(address),
        )
    }
}

/// What the records are paid for a period is at most what they were owed
/// on the positions they held when it closed.
pub proof fn lemma_claimed_bounded(
    s: StakingView,
    runs: Seq<Seq<Operation>>,
    address: ResourceAddress,
    rate: int,
    n: int,
)
    requires
        s.wf(),
        rate >= 0,
        0 <= n <= s.ids.len() == runs.len(),
        s.ids.len() <= u64::MAX,
        forall|k: int|
            0 <= k < s.ids.len() ==> (#[trigger] after_all(s, runs[k])).ids[k].next_period
                <= s.current_period,
    ensures
        claimed(s, runs, address, rate, n) <= payable(s.ids.take(n), address, rate),
    decreases n,
{
    if n > 0 {
        lemma_claimed_bounded(s, runs, address, rate, n - 1);
        assert(s.ids.take(n).drop_last() =~= s.ids.take(n - 1));
        assert(after_all(s, runs[n - 1]).ids[n - 1].next_period <= s.current_period);
        law_unclaimed_position_never_grows(s, runs[n - 1], n as u64, address);
        lemma_product_ordered(
            rate,
            after_all(s, runs[n - 1]).ids[n - 1].staked(address),
            s.ids[n - 1].staked(address),
        );
    }
}

/// All claims on one closed period together pay at most its budget. Let a
/// period close at `now`, and let every record claim that period at some
/// later time, in the state that its own run of operations leads to. Then
/// what the records are paid for that period of an asset, at the rate the
/// close recorded, is in all at most what the period pays for the asset,
/// where that is not negative.
pub proof fn law_claims_within_budget(
    s: StakingView,
    now: int,
    address: ResourceAddress,
    runs: Seq<Seq<Operation>>,
)
    requires
        s.wf(),
        s.is_stakable(address),
        s.unit(address).reward_amount >= 0,
        now >= s.next_period,
        s.update_period(now).0 is Ok,
        s.ids.len() <= u64::MAX,
        runs.len() == s.ids.len(),
        forall|k: int|
            0 <= k < s.ids.len() ==> (#[trigger] after_all(
                s.update_period(now).1,
                runs[k],
            )).ids[k].next_period <= s.current_period + 1,
    ensures
        s.update_period(now).1.unit(address).rewards[s.current_period] == s.unit(
            address,
        ).closing_rate(),
        claimed(
            s.update_period(now).1,
            runs,
            address,
            s.unit(address).closing_rate(),
            s.ids.len() as int,
        ) <= s.unit(address).reward_amount,
{
    let closed = s.update_period(now).1;
    let rate = s.unit(address).closing_rate();
    lemma_advance_wf(s, now);
    law_closing_rate(s, now, address);
    law_period_within_budget(s, address);
    lemma_unit_of(s, address);
    if s.unit(address).amount_staked > 0 {
        let exact = s.unit(address).reward_amount * crate::decimal::unit();
        assert(exact >= 0) by (nonlinear_arith)
            requires
                exact == s.unit(address).reward_amount * crate::decimal::unit(),
                s.unit(address).reward_amount >= 0,
        ;
        vstd::arithmetic::div_mod::lemma_div_pos_is_pos(exact, s.unit(address).amount_staked);
    }
    lemma_claimed_bounded(closed, runs, address, rate, s.ids.len() as int);
    assert(closed.ids.take(s.ids.len() as int) =~= s.ids);
}

} // verus!
