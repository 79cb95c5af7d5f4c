//! The staking ledger: one engine that owns the assets, the records, the
//! receipts and the period clock, and through which alone they change.

use vstd::pervasive::unreached;
use vstd::prelude::*;
use std::collections::HashMap;
use crate::address::ResourceAddress;
use crate::decimal::Decimal;
use crate::error::StakingError;
use crate::invariants::{
    lemma_accrue_same_positions, lemma_add_stakable_wf, lemma_advance_wf, lemma_create_id_wf,
    lemma_finish_unstake_wf, lemma_index_of, lemma_lock_stake_wf, lemma_position_bounds,
    lemma_receipt_covered,
    lemma_reward_vault_wf, lemma_set_lock_wf, lemma_settings_wf, lemma_stake_wf,
    lemma_start_unstake_wf, lemma_update_id_wf,
};
use crate::model::{
    accrue, accrue_asset, IdView, IssuedReceipt, StakeTransferReceiptView, StakingView,
    UnstakeReceiptView,
};
use crate::records::{
    Deposit, Id, Lock, Resource, StakableUnit, StakeTransferReceipt, UnstakeReceipt,
};
use crate::snapshot::Snapshot;
use crate::time::Instant;

verus! {

/// The ledger.
#[derive(Debug)]
pub struct Staking {
    /// Interval in which rewards are distributed, in days.
    period_interval: i64,
    /// Time at which the next period starts.
    next_period: Instant,
    /// Current period, starting at 0.
    current_period: i64,
    /// Number of periods for which rewards stay claimable.
    max_claim_delay: i64,
    /// Ceiling of the unstake delay.
    max_unstaking_delay: i64,
    /// Delay after which unstaked tokens can be redeemed, in days.
    unstake_delay: i64,
    /// Balance of the vault that rewards are paid from.
    reward_vault: Decimal,
    /// The stakable assets, in the order of their registration.
    stakes: Vec<StakableUnit>,
    /// The staking records; record `n` stands at index `n - 1`.
    ids: Vec<Id>,
    /// The unstake receipts by number; `None` once redeemed.
    unstake_receipts: Vec<Option<UnstakeReceipt>>,
    /// The stake transfer receipts by number; `None` once staked again.
    stake_transfer_receipts: Vec<Option<StakeTransferReceipt>>,
    /// Whether a DAO controls the staking and may force locks.
    dao_controlled: bool,
}

/// The numbers in an unstake receipt, where there is one.
pub open spec fn unstake_receipt_view(receipt: Option<UnstakeReceipt>) -> Option<
    UnstakeReceiptView,
> {
    match receipt {
        Some(r) => Some(r@),
        None => None,
    }
}

/// The numbers in a stake transfer receipt, where there is one.
pub open spec fn stake_transfer_receipt_view(receipt: Option<StakeTransferReceipt>) -> Option<
    StakeTransferReceiptView,
> {
    match receipt {
        Some(r) => Some(r@),
        None => None,
    }
}

/// The numbers in the outcome of an operation that pays out an amount.
pub open spec fn payout_view(r: Result<Decimal, StakingError>) -> Result<int, StakingError> {
    match r {
        Ok(amount) => Ok(amount@),
        Err(e) => Err(e),
    }
}

/// The numbers in the outcome of a withdrawal from custody.
pub open spec fn withdrawal_view(r: Result<(ResourceAddress, Decimal), StakingError>) -> Result<
    (ResourceAddress, int),
    StakingError,
> {
    match r {
        Ok((address, amount)) => Ok((address, amount@)),
        Err(e) => Err(e),
    }
}

/// What closing a period will write, computed before anything is written.
struct Closing {
    rates: Vec<Decimal>,
    next_period: Instant,
}

impl View for Staking {
    type V = StakingView;

    closed spec fn view(&self) -> StakingView {
        StakingView {
            period_interval: self.period_interval as int,
            next_period: self.next_period@,
            current_period: self.current_period as int,
            max_claim_delay: self.max_claim_delay as int,
            max_unstaking_delay: self.max_unstaking_delay as int,
            unstake_delay: self.unstake_delay as int,
            reward_vault: self.reward_vault@,
            stakes: Seq::new(self.stakes@.len(), |i: int| self.stakes@[i]@),
            ids: Seq::new(self.ids@.len(), |k: int| self.ids@[k]@),
            unstake_receipts: Seq::new(
                self.unstake_receipts@.len(),
                |k: int| unstake_receipt_view(self.unstake_receipts@[k]),
            ),
            stake_transfer_receipts: Seq::new(
                self.stake_transfer_receipts@.len(),
                |k: int| stake_transfer_receipt_view(self.stake_transfer_receipts@[k]),
            ),
            dao_controlled: self.dao_controlled,
        }
    }
}

impl Staking {
    /// The ledger is well formed as a mathematical object, and no record
    /// holds two positions in one asset.
    pub closed spec fn wf(&self) -> bool {
        &&& self@.wf()
        &&& self.ids_wf()
    }

    /// No record holds two positions in one asset.
    closed spec fn ids_wf(&self) -> bool {
        forall|k: int| 0 <= k < self.ids@.len() ==> (#[trigger] self.ids@[k]).wf()
    }

    /// A well-formed ledger has a well-formed view.
    pub proof fn lemma_view_wf(&self)
        requires
            self.wf(),
        ensures
            self@.wf(),
    {
    }

    /// Sets the ledger up with `rewards` in the reward vault. The first
    /// period is due `period_interval` days after `now`.
    pub fn new(
        rewards: Decimal,
        period_interval: i64,
        dao_controlled: bool,
        max_unstaking_delay: i64,
        now: Instant,
    ) -> (r: Result<Staking, StakingError>)
        ensures
            match r {
                Ok(s) => s.wf() && StakingView::new(
                    rewards@,
                    period_interval as int,
                    dao_controlled,
                    max_unstaking_delay as int,
                    now@,
                ) == Ok::<StakingView, StakingError>(s@),
                Err(e) => StakingView::new(
                    rewards@,
                    period_interval as int,
                    dao_controlled,
                    max_unstaking_delay as int,
                    now@,
                ) == Err::<StakingView, StakingError>(e),
            },
    {
        if period_interval <= 0 {
            return Err(StakingError::InvalidInterval);
        }
        if rewards.is_negative() {
            return Err(StakingError::InvalidAmount);
        }
        match now.add_days(period_interval) {
            None => Err(StakingError::Overflow),
            Some(next_period) => {
                let s = Staking {
                    period_interval,
                    next_period,
                    current_period: 0,
                    max_claim_delay: 5,
                    max_unstaking_delay,
                    unstake_delay: if max_unstaking_delay < 7 {
                        max_unstaking_delay
                    } else {
                        7
                    },
                    reward_vault: rewards,
                    stakes: Vec::new(),
                    ids: Vec::new(),
                    unstake_receipts: Vec::new(),
                    stake_transfer_receipts: Vec::new(),
                    dao_controlled,
                };
                proof {
                    let v = StakingView::new(
                        rewards@,
                        period_interval as int,
                        dao_controlled,
                        max_unstaking_delay as int,
                        now@,
                    ).unwrap();
                    assert(s@.stakes =~= v.stakes);
                    assert(s@.ids =~= v.ids);
                    assert(s@.unstake_receipts =~= v.unstake_receipts);
                    assert(s@.stake_transfer_receipts =~= v.stake_transfer_receipts);
                }
                Ok(s)
            },
        }
    }

    /// Whether this ledger differs from `other` at most in the period clock
    /// and in the recorded rates.
    closed spec fn same_but_rates(&self, other: Staking) -> bool {
        &&& self.ids == other.ids
        &&& self.unstake_receipts == other.unstake_receipts
        &&& self.stake_transfer_receipts == other.stake_transfer_receipts
        &&& self.reward_vault == other.reward_vault
        &&& self.unstake_delay == other.unstake_delay
        &&& self.max_claim_delay == other.max_claim_delay
        &&& self.stakes@.len() == other.stakes@.len()
        &&& forall|i: int|
            0 <= i < other.stakes@.len() ==> {
                &&& (#[trigger] self.stakes@[i]).address == other.stakes@[i].address
                &&& self.stakes@[i].amount_staked == other.stakes@[i].amount_staked
                &&& self.stakes@[i].vault == other.stakes@[i].vault
                &&& self.stakes@[i].reward_amount == other.stakes@[i].reward_amount
                &&& self.stakes@[i].lock == other.stakes@[i].lock
            }
    }

    /// Whether the registry, the records and the receipts are as many as in `other`.
    closed spec fn frame(&self, other: Staking) -> bool {
        &&& self.stakes@.len() == other.stakes@.len()
        &&& self.ids@.len() == other.ids@.len()
        &&& self.unstake_receipts@.len() == other.unstake_receipts@.len()
        &&& self.stake_transfer_receipts@.len() == other.stake_transfer_receipts@.len()
    }

    /// Sets what is staked and held of the asset at index `i`.
    fn set_unit_amounts(&mut self, i: usize, amount_staked: Decimal, vault: Decimal)
        requires
            i < old(self).stakes@.len(),
        ensures
            final(self)@ == (StakingView {
                stakes: old(self)@.stakes.update(
                    i as int,
                    old(self)@.stakes[i as int].with_amounts(amount_staked@, vault@),
                ),
                ..old(self)@
            }),
            final(self).ids == old(self).ids,
            final(self).frame(*old(self)),
    {
        self.stakes[i].amount_staked = amount_staked;
        self.stakes[i].vault = vault;
        proof {
            let expected = old(self)@.stakes.update(
                i as int,
                old(self)@.stakes[i as int].with_amounts(amount_staked@, vault@),
            );
            assert(self@.stakes =~= expected);
            assert(self@.ids =~= old(self)@.ids);
            assert(self@.unstake_receipts =~= old(self)@.unstake_receipts);
            assert(self@.stake_transfer_receipts =~= old(self)@.stake_transfer_receipts);
        }
    }

    /// Sets the position in `address` of the record at index `k`.
    fn set_position(&mut self, k: usize, address: ResourceAddress, resource: Resource)
        requires
            k < old(self).ids@.len(),
            old(self).ids_wf(),
        ensures
            final(self).ids_wf(),
            final(self).ids@.len() == old(self).ids@.len(),
            final(self).frame(*old(self)),
            final(self)@ == (StakingView {
                ids: old(self)@.ids.update(
                    k as int,
                    old(self)@.ids[k as int].with_resource(address, resource@),
                ),
                ..old(self)@
            }),
    {
        let slot = self.ids[k].find(&address);
        let ghost entries = self.ids@[k as int].resources@;
        match slot {
            Some(j) => {
                proof {
                    crate::records::lemma_positions_update(entries, j as int, resource);
                }
                self.ids[k].resources[j].1 = resource;
                assert(self.ids@[k as int].resources@ =~= entries.update(
                    j as int,
                    (entries[j as int].0, resource),
                ));
            },
            None => {
                proof {
                    crate::records::lemma_positions_push(entries, address, resource);
                }
                self.ids[k].resources.push((address, resource));
            },
        }
        proof {
            let expected = old(self)@.ids.update(
                k as int,
                old(self)@.ids[k as int].with_resource(address, resource@),
            );
            assert(self@.ids =~= expected);
            assert(self@.stakes =~= old(self)@.stakes);
            assert(self@.unstake_receipts =~= old(self)@.unstake_receipts);
            assert(self@.stake_transfer_receipts =~= old(self)@.stake_transfer_receipts);
        }
    }

    /// Sets the claim pointer of the record at index `k`.
    fn set_next_period(&mut self, k: usize, next_period: i64)
        requires
            k < old(self).ids@.len(),
            old(self).ids_wf(),
        ensures
            final(self).ids_wf(),
            final(self).ids@.len() == old(self).ids@.len(),
            final(self).frame(*old(self)),
            final(self)@ == (StakingView {
                ids: old(self)@.ids.update(
                    k as int,
                    old(self)@.ids[k as int].with_next_period(next_period as int),
                ),
                ..old(self)@
            }),
    {
        self.ids[k].next_period = next_period;
        proof {
            let expected = old(self)@.ids.update(
                k as int,
                old(self)@.ids[k as int].with_next_period(next_period as int),
            );
            assert(self@.ids =~= expected);
            assert(self@.stakes =~= old(self)@.stakes);
            assert(self@.unstake_receipts =~= old(self)@.unstake_receipts);
            assert(self@.stake_transfer_receipts =~= old(self)@.stake_transfer_receipts);
        }
    }

    /// Sets the balance of the reward vault.
    fn set_reward_vault(&mut self, reward_vault: Decimal)
        requires
            old(self).ids_wf(),
        ensures
            final(self).ids_wf(),
            final(self).ids == old(self).ids,
            final(self).frame(*old(self)),
            final(self)@ == old(self)@.with_reward_vault(reward_vault@),
    {
        self.reward_vault = reward_vault;
        proof {
            assert(self@.ids =~= old(self)@.ids);
            assert(self@.stakes =~= old(self)@.stakes);
            assert(self@.unstake_receipts =~= old(self)@.unstake_receipts);
            assert(self@.stake_transfer_receipts =~= old(self)@.stake_transfer_receipts);
        }
    }

    /// Whether `c` holds what closing the current period at `now` writes.
    closed spec fn plans(&self, c: Closing, now: int) -> bool {
        &&& c.rates@.len() == self.stakes@.len()
        &&& forall|i: int|
            0 <= i < self.stakes@.len() ==> (#[trigger] c.rates@[i])@
                == self@.stakes[i].closing_rate()
        &&& Some(c.next_period@) == self@.next_start(now)
    }

    /// Computes what the lazy advance at `now` will write, and writes nothing.
    fn plan_advance(&self, now: Instant) -> (r: Result<Option<Closing>, StakingError>)
        requires
            self.wf(),
        ensures
            match r {
                Err(e) => e == StakingError::Overflow && self@.advance(now@) is None,
                Ok(None) => now@ < self@.next_period,
                Ok(Some(c)) => now@ >= self@.next_period && self@.can_close(now@) && self.plans(
                    c,
                    now@,
                ),
            },
    {
        if !now.is_at_or_after(self.next_period) {
            return Ok(None);
        }
        if self.current_period >= i64::MAX - 1 {
            return Err(StakingError::Overflow);
        }
        let interval: i128 = self.period_interval as i128;
        let gone: u128 = (now.seconds_since_unix_epoch as i128
            - self.next_period.seconds_since_unix_epoch as i128) as u128;
        let span: u128 = (interval * 86_400) as u128;
        let elapsed: u128 = gone / span;
        proof {
            assert(elapsed as int == self@.elapsed_periods(now@));
            assert(elapsed * span <= gone) by (nonlinear_arith)
                requires
                    elapsed == gone / span,
                    span > 0,
            ;
            assert(elapsed * interval <= elapsed * span) by (nonlinear_arith)
                requires
                    span == interval * 86_400,
                    interval > 0,
                    elapsed >= 0,
            ;
            assert((1 + elapsed) * interval == interval + elapsed * interval) by (nonlinear_arith);
        }
        let days: i128 = interval + (elapsed as i128) * interval;
        if days > i64::MAX as i128 {
            return Err(StakingError::Overflow);
        }
        let next_period = match self.next_period.add_days(days as i64) {
            None => {
                return Err(StakingError::Overflow);
            },
            Some(t) => t,
        };
        let mut rates: Vec<Decimal> = Vec::new();
        let mut i: usize = 0;
        while i < self.stakes.len()
            invariant
                i <= self.stakes.len(),
                rates@.len() == i,
                now@ >= self@.next_period,
                self@.current_period + 1 < i64::MAX,
                Some(next_period@) == self@.next_start(now@),
                forall|j: int|
                    0 <= j < i ==> (#[trigger] rates@[j])@ == self@.stakes[j].closing_rate()
                        && crate::decimal::narrowable(self@.stakes[j].closing_rate()),
            decreases self.stakes.len() - i,
        {
            let unit = &self.stakes[i];
            let rate = if unit.amount_staked.is_positive() {
                match unit.reward_amount.checked_div(unit.amount_staked) {
                    None => {
                        assert(!crate::decimal::narrowable(self@.stakes[i as int].closing_rate()));
                        return Err(StakingError::Overflow);
                    },
                    Some(q) => q,
                }
            } else {
                Decimal::zero()
            };
            rates.push(rate);
            i = i + 1;
        }
        proof {
            assert forall|j: int| 0 <= j < self@.stakes.len() implies crate::decimal::narrowable(
                (#[trigger] self@.stakes[j]).closing_rate(),
            ) by {
                assert(rates@[j]@ == self@.stakes[j].closing_rate());
            }
        }
        Ok(Some(Closing { rates, next_period }))
    }

    /// Writes what `plan_advance` computed.
    fn apply_advance(&mut self, plan: Option<Closing>, Ghost(now): Ghost<int>)
        requires
            old(self).wf(),
            match plan {
                None => now < old(self)@.next_period,
                Some(c) => now >= old(self)@.next_period && old(self)@.can_close(now) && old(
                    self,
                ).plans(c, now),
            },
        ensures
            final(self).wf(),
            Some(final(self)@) == old(self)@.advance(now),
            final(self).same_but_rates(*old(self)),
    {
        broadcast use vstd::std_specs::hash::group_hash_axioms;

        match plan {
            None => {},
            Some(c) => {
                let period = self.current_period;
                let mut i: usize = 0;
                while i < self.stakes.len()
                    invariant
                        i <= self.stakes@.len(),
                        self.stakes@.len() == old(self).stakes@.len(),
                        c.rates@.len() == self.stakes@.len(),
                        period == old(self).current_period,
                        self.period_interval == old(self).period_interval,
                        self.next_period == old(self).next_period,
                        self.current_period == old(self).current_period,
                        self.max_claim_delay == old(self).max_claim_delay,
                        self.max_unstaking_delay == old(self).max_unstaking_delay,
                        self.unstake_delay == old(self).unstake_delay,
                        self.reward_vault == old(self).reward_vault,
                        self.ids == old(self).ids,
                        self.unstake_receipts == old(self).unstake_receipts,
                        self.stake_transfer_receipts == old(self).stake_transfer_receipts,
                        self.dao_controlled == old(self).dao_controlled,
                        forall|j: int|
                            0 <= j < self.stakes@.len() ==> {
                                &&& (#[trigger] self.stakes@[j]).address == old(
                                    self,
                                ).stakes@[j].address
                                &&& self.stakes@[j].amount_staked == old(
                                    self,
                                ).stakes@[j].amount_staked
                                &&& self.stakes@[j].vault == old(self).stakes@[j].vault
                                &&& self.stakes@[j].reward_amount == old(
                                    self,
                                ).stakes@[j].reward_amount
                                &&& self.stakes@[j].lock == old(self).stakes@[j].lock
                            },
                        forall|j: int|
                            0 <= j < i ==> (#[trigger] self.stakes@[j]).rewards@ == old(
                                self,
                            ).stakes@[j].rewards@.insert(period, c.rates@[j]),
                        forall|j: int|
                            i <= j < self.stakes@.len() ==> (#[trigger] self.stakes@[j]).rewards@
                                == old(self).stakes@[j].rewards@,
                    decreases self.stakes@.len() - i,
                {
                    let rate = c.rates[i];
                    self.stakes[i].rewards.insert(period, rate);
                    i = i + 1;
                }
                self.current_period = period + 1;
                self.next_period = c.next_period;
                proof {
                    let pre = old(self)@;
                    let post = pre.closed(now);
                    assert forall|j: int| 0 <= j < post.stakes.len() implies self@.stakes[j]
                        == post.stakes[j] by {
                        assert(c.rates@[j]@ == pre.stakes[j].closing_rate());
                        assert(self.stakes@[j].rewards@ == old(self).stakes@[j].rewards@.insert(
                            period,
                            c.rates@[j],
                        ));
                        assert(crate::records::rates(self.stakes@[j].rewards@)
                            =~= crate::records::rates(old(self).stakes@[j].rewards@).insert(
                            period as int,
                            c.rates@[j]@,
                        ));
                    }
                    assert(self@.stakes =~= post.stakes);
                    assert(self@.ids =~= post.ids);
                    assert(self@.unstake_receipts =~= post.unstake_receipts);
                    assert(self@.stake_transfer_receipts =~= post.stake_transfer_receipts);
                    assert(self@ == post);
                }
            },
        }
        proof {
            crate::invariants::lemma_advance_wf(old(self)@, now);
        }
    }

    /// Closes the current period if the next one is due at `now`: records one
    /// reward rate per asset, counts the period up and moves the next start
    /// past every interval that has gone by. Before that time nothing changes.
    pub fn update_period(&mut self, now: Instant) -> (r: Result<(), StakingError>)
        requires
            old(self).wf(),
        ensures
            final(self).wf(),
            (r, final(self)@) == old(self)@.update_period(now@),
    {
        match self.plan_advance(now) {
            Err(e) => Err(e),
            Ok(plan) => {
                self.apply_advance(plan, Ghost(now@));
                Ok(())
            },
        }
    }

    /// Creates an empty staking record and returns its number. The record
    /// claims from the period after the current one.
    pub fn create_id(&mut self, now: Instant) -> (r: Result<u64, StakingError>)
        requires
            old(self).wf(),
        ensures
            final(self).wf(),
            (r, final(self)@) == old(self)@.create_id(now@),
    {
        let plan = match self.plan_advance(now) {
            Err(e) => {
                return Err(e);
            },
            Ok(plan) => plan,
        };
        if self.ids.len() as u64 >= u64::MAX {
            proof {
                lemma_advance_wf(old(self)@, now@);
            }
            return Err(StakingError::Overflow);
        }
        proof {
            lemma_create_id_wf(old(self)@, now@);
            lemma_advance_wf(old(self)@, now@);
        }
        self.apply_advance(plan, Ghost(now@));
        let ghost mid = self@;
        self.ids.push(Id { resources: Vec::new(), next_period: self.current_period + 1 });
        proof {
            let record = IdView { resources: Map::empty(), next_period: mid.current_period + 1 };
            assert(self.ids@.last()@.resources =~= record.resources);
            assert(self@.ids =~= mid.ids.push(record));
            assert(self@.stakes =~= mid.stakes);
            assert(self@.unstake_receipts =~= mid.unstake_receipts);
            assert(self@.stake_transfer_receipts =~= mid.stake_transfer_receipts);
        }
        Ok(self.ids.len() as u64)
    }

    /// Marks the stake transfer receipt at index `n` as used.
    fn clear_stake_transfer_receipt(&mut self, n: usize)
        requires
            n < old(self).stake_transfer_receipts@.len(),
            old(self).ids_wf(),
        ensures
            final(self).ids_wf(),
            final(self).ids == old(self).ids,
            final(self).frame(*old(self)),
            final(self)@ == (StakingView {
                stake_transfer_receipts: old(self)@.stake_transfer_receipts.update(n as int, None),
                ..old(self)@
            }),
    {
        self.stake_transfer_receipts[n] = None;
        proof {
            assert(self@.stake_transfer_receipts =~= old(self)@.stake_transfer_receipts.update(
                n as int,
                None,
            ));
            assert(self@.ids =~= old(self)@.ids);
            assert(self@.stakes =~= old(self)@.stakes);
            assert(self@.unstake_receipts =~= old(self)@.unstake_receipts);
        }
    }

    /// Counts the tokens handed over for staking in `address`: they must be
    /// of that asset and not a negative amount.
    fn stake_tokens(&self, address: &ResourceAddress, sent: &ResourceAddress, amount: Decimal) -> (r:
        Result<Decimal, StakingError>)
        ensures
            r == if *sent != *address {
                Err::<Decimal, StakingError>(StakingError::WrongAsset)
            } else if amount@ < 0 {
                Err(StakingError::InvalidAmount)
            } else {
                Ok(amount)
            },
    {
        if !sent.same_as(address) {
            return Err(StakingError::WrongAsset);
        }
        if amount.is_negative() {
            return Err(StakingError::InvalidAmount);
        }
        Ok(amount)
    }

    /// Reads the stake transfer receipt handed over for staking in
    /// `address`: it must be pending and of that asset. Returns its amount
    /// and its index.
    fn stake_transfer_receipt(&self, address: &ResourceAddress, receipt: u64) -> (r: Result<
        (Decimal, usize),
        StakingError,
    >)
        ensures
            match r {
                Ok((amount, n)) => {
                    &&& self@.has_stake_transfer_receipt(receipt)
                    &&& self@.stake_transfer_receipt(receipt).address == *address
                    &&& self@.stake_transfer_receipt(receipt).amount == amount@
                    &&& n == receipt - 1
                    &&& n < self.stake_transfer_receipts@.len()
                },
                Err(e) => if !self@.has_stake_transfer_receipt(receipt) {
                    e == StakingError::ReceiptNotFound
                } else {
                    e == StakingError::WrongAsset && self@.stake_transfer_receipt(receipt).address
                        != *address
                },
            },
    {
        if receipt < 1 || receipt > self.stake_transfer_receipts.len() as u64 {
            return Err(StakingError::ReceiptNotFound);
        }
        let n: usize = (receipt - 1) as usize;
        match self.stake_transfer_receipts[n] {
            None => Err(StakingError::ReceiptNotFound),
            Some(data) => {
                if !data.address.same_as(address) {
                    return Err(StakingError::WrongAsset);
                }
                Ok((data.amount, n))
            },
        }
    }

    /// Stakes what `deposit` hands over, which must be of the asset at
    /// `address`, to record `id`: tokens enter the asset's custody vault, a
    /// transfer receipt is used up. The record must have claimed every
    /// closed period, and claims from the next one on.
    pub fn stake(&mut self, address: ResourceAddress, deposit: Deposit, id: u64, now: Instant) -> (r:
        Result<(), StakingError>)
        requires
            old(self).wf(),
        ensures
            final(self).wf(),
            (r, final(self)@) == old(self)@.stake(address, deposit@, id, now@),
    {
        if id < 1 || id > self.ids.len() as u64 {
            return Err(StakingError::InvalidId);
        }
        let k: usize = (id - 1) as usize;
        let i = match self.find_unit(&address) {
            None => {
                return Err(StakingError::NotStakable);
            },
            Some(i) => i,
        };
        let (amount, deposited, used) = match deposit {
            Deposit::Tokens(sent, amount) => match self.stake_tokens(&address, &sent, amount) {
                Err(e) => {
                    return Err(e);
                },
                Ok(amount) => (amount, true, 0usize),
            },
            Deposit::TransferReceipt(receipt) => match self.stake_transfer_receipt(
                &address,
                receipt,
            ) {
                Err(e) => {
                    return Err(e);
                },
                Ok((amount, n)) => (amount, false, n),
            },
        };
        proof {
            lemma_index_of(old(self)@, i as int);
            lemma_stake_wf(old(self)@, address, deposit@, id, now@);
            if old(self)@.advance(now@) is Some {
                lemma_advance_wf(old(self)@, now@);
                lemma_index_of(old(self)@.advance(now@).unwrap(), i as int);
                lemma_position_bounds(old(self)@.advance(now@).unwrap(), id, address);
            }
        }
        let plan = match self.plan_advance(now) {
            Err(e) => {
                return Err(e);
            },
            Ok(plan) => plan,
        };
        let period: i64 = if plan.is_some() {
            self.current_period + 1
        } else {
            self.current_period
        };
        if self.ids[k].next_period <= period {
            return Err(StakingError::UnclaimedRewardsPending);
        }
        let total = match self.stakes[i].amount_staked.checked_add(amount) {
            None => {
                return Err(StakingError::Overflow);
            },
            Some(total) => total,
        };
        let vault = if deposited {
            match self.stakes[i].vault.checked_add(amount) {
                None => {
                    return Err(StakingError::Overflow);
                },
                Some(vault) => vault,
            }
        } else {
            self.stakes[i].vault
        };
        let position = match self.ids[k].resource(&address) {
            None => Resource { amount_staked: amount, locked_until: None },
            Some(held) => match held.amount_staked.checked_add(amount) {
                None => unreached(),
                Some(sum) => Resource { amount_staked: sum, locked_until: held.locked_until },
            },
        };
        self.apply_advance(plan, Ghost(now@));
        let ghost mid = self@;
        self.set_unit_amounts(i, total, vault);
        self.set_position(k, address, position);
        self.set_next_period(k, period + 1);
        if !deposited {
            self.clear_stake_transfer_receipt(used);
        }
        proof {
            let expected = old(self)@.stake(address, deposit@, id, now@).1;
            assert(mid.ids[k as int] == old(self)@.ids[k as int]);
            assert(self@.ids =~= expected.ids);
            assert(self@.stakes =~= expected.stakes);
            assert(self@.stake_transfer_receipts =~= expected.stake_transfer_receipts);
        }
        Ok(())
    }

    /// Marks the unstake receipt at index `n` as redeemed.
    fn clear_unstake_receipt(&mut self, n: usize)
        requires
            n < old(self).unstake_receipts@.len(),
            old(self).ids_wf(),
        ensures
            final(self).ids_wf(),
            final(self).ids == old(self).ids,
            final(self).frame(*old(self)),
            final(self)@ == (StakingView {
                unstake_receipts: old(self)@.unstake_receipts.update(n as int, None),
                ..old(self)@
            }),
    {
        self.unstake_receipts[n] = None;
        proof {
            assert(self@.unstake_receipts =~= old(self)@.unstake_receipts.update(n as int, None));
            assert(self@.ids =~= old(self)@.ids);
            assert(self@.stakes =~= old(self)@.stakes);
            assert(self@.stake_transfer_receipts =~= old(self)@.stake_transfer_receipts);
        }
    }

    /// Files a new unstake receipt under the next number.
    fn push_unstake_receipt(&mut self, receipt: UnstakeReceipt)
        requires
            old(self).ids_wf(),
        ensures
            final(self).ids_wf(),
            final(self).ids == old(self).ids,
            final(self).unstake_receipts@.len() == old(self).unstake_receipts@.len() + 1,
            final(self)@ == (StakingView {
                unstake_receipts: old(self)@.unstake_receipts.push(Some(receipt@)),
                ..old(self)@
            }),
    {
        self.unstake_receipts.push(Some(receipt));
        proof {
            assert(self@.unstake_receipts =~= old(self)@.unstake_receipts.push(Some(receipt@)));
            assert(self@.ids =~= old(self)@.ids);
            assert(self@.stakes =~= old(self)@.stakes);
            assert(self@.stake_transfer_receipts =~= old(self)@.stake_transfer_receipts);
        }
    }

    /// Files a new stake transfer receipt under the next number.
    fn push_stake_transfer_receipt(&mut self, receipt: StakeTransferReceipt)
        requires
            old(self).ids_wf(),
        ensures
            final(self).ids_wf(),
            final(self).ids == old(self).ids,
            final(self).stake_transfer_receipts@.len() == old(self).stake_transfer_receipts@.len()
                + 1,
            final(self)@ == (StakingView {
                stake_transfer_receipts: old(self)@.stake_transfer_receipts.push(Some(receipt@)),
                ..old(self)@
            }),
    {
        self.stake_transfer_receipts.push(Some(receipt));
        proof {
            assert(self@.stake_transfer_receipts =~= old(self)@.stake_transfer_receipts.push(
                Some(receipt@),
            ));
            assert(self@.ids =~= old(self)@.ids);
            assert(self@.stakes =~= old(self)@.stakes);
            assert(self@.unstake_receipts =~= old(self)@.unstake_receipts);
        }
    }

    /// Takes `amount`, or the whole position where it holds no more, of
    /// `address` out of record `id`, unless the position is locked, and
    /// issues a receipt for it: a stake transfer receipt that any record can
    /// stake at once, or an unstake receipt that is redeemable after the
    /// unstake delay. The custody vault is left as it is.
    pub fn start_unstake(
        &mut self,
        id: u64,
        address: ResourceAddress,
        amount: Decimal,
        stake_transfer: bool,
        now: Instant,
    ) -> (r: Result<IssuedReceipt, StakingError>)
        requires
            old(self).wf(),
        ensures
            final(self).wf(),
            (r, final(self)@) == old(self)@.start_unstake(
                id,
                address,
                amount@,
                stake_transfer,
                now@,
            ),
    {
        if id < 1 || id > self.ids.len() as u64 {
            return Err(StakingError::InvalidId);
        }
        let k: usize = (id - 1) as usize;
        let held = match self.ids[k].resource(&address) {
            None => {
                return Err(StakingError::NoPosition);
            },
            Some(held) => held,
        };
        if amount.is_negative() {
            return Err(StakingError::InvalidAmount);
        }
        if !held.amount_staked.is_positive() {
            return Err(StakingError::NothingStaked);
        }
        if let Some(locked_until) = held.locked_until {
            if !now.is_at_or_after(locked_until) {
                return Err(StakingError::StakeLocked);
            }
        }
        proof {
            assert(old(self)@.ids[k as int].resources.contains_key(address));
            assert(old(self)@.is_stakable(address));
            lemma_start_unstake_wf(old(self)@, id, address, amount@, stake_transfer, now@);
            lemma_position_bounds(old(self)@, id, address);
        }
        let i = match self.find_unit(&address) {
            None => unreached(),
            Some(i) => i,
        };
        proof {
            lemma_index_of(old(self)@, i as int);
            if old(self)@.advance(now@) is Some {
                lemma_advance_wf(old(self)@, now@);
                lemma_index_of(old(self)@.advance(now@).unwrap(), i as int);
            }
        }
        let plan = match self.plan_advance(now) {
            Err(e) => {
                return Err(e);
            },
            Ok(plan) => plan,
        };
        let taken = if amount.lt(held.amount_staked) {
            amount
        } else {
            held.amount_staked
        };
        let remaining = match held.amount_staked.checked_sub(taken) {
            None => unreached(),
            Some(remaining) => remaining,
        };
        let total = match self.stakes[i].amount_staked.checked_sub(taken) {
            None => unreached(),
            Some(total) => total,
        };
        let vault = self.stakes[i].vault;
        let position = Resource { amount_staked: remaining, locked_until: held.locked_until };
        if stake_transfer {
            if self.stake_transfer_receipts.len() as u64 >= u64::MAX {
                return Err(StakingError::Overflow);
            }
            self.apply_advance(plan, Ghost(now@));
            let ghost mid = self@;
            self.set_unit_amounts(i, total, vault);
            self.set_position(k, address, position);
            self.push_stake_transfer_receipt(StakeTransferReceipt { address, amount: taken });
            proof {
                let expected = old(self)@.start_unstake(
                    id,
                    address,
                    amount@,
                    stake_transfer,
                    now@,
                ).1;
                assert(mid.ids[k as int] == old(self)@.ids[k as int]);
                assert(self@.ids =~= expected.ids);
                assert(self@.stakes =~= expected.stakes);
            }
            Ok(IssuedReceipt::Transfer(self.stake_transfer_receipts.len() as u64))
        } else {
            if self.unstake_receipts.len() as u64 >= u64::MAX {
                return Err(StakingError::Overflow);
            }
            let redemption_time = match now.add_days(self.unstake_delay) {
                None => {
                    return Err(StakingError::Overflow);
                },
                Some(t) => t,
            };
            self.apply_advance(plan, Ghost(now@));
            let ghost mid = self@;
            self.set_unit_amounts(i, total, vault);
            self.set_position(k, address, position);
            self.push_unstake_receipt(UnstakeReceipt { address, amount: taken, redemption_time });
            proof {
                let expected = old(self)@.start_unstake(
                    id,
                    address,
                    amount@,
                    stake_transfer,
                    now@,
                ).1;
                assert(mid.ids[k as int] == old(self)@.ids[k as int]);
                assert(self@.ids =~= expected.ids);
                assert(self@.stakes =~= expected.stakes);
            }
            Ok(IssuedReceipt::Unstake(self.unstake_receipts.len() as u64))
        }
    }

    /// Redeems unstake receipt `receipt` once its redemption time has come:
    /// the receipt is used up, and its amount leaves the asset's custody
    /// vault and is returned with the asset's address.
    pub fn finish_unstake(&mut self, receipt: u64, now: Instant) -> (r: Result<
        (ResourceAddress, Decimal),
        StakingError,
    >)
        requires
            old(self).wf(),
        ensures
            final(self).wf(),
            (withdrawal_view(r), final(self)@) == old(self)@.finish_unstake(receipt, now@),
    {
        if receipt < 1 || receipt > self.unstake_receipts.len() as u64 {
            return Err(StakingError::ReceiptNotFound);
        }
        let n: usize = (receipt - 1) as usize;
        let data = match self.unstake_receipts[n] {
            None => {
                return Err(StakingError::ReceiptNotFound);
            },
            Some(data) => data,
        };
        if !now.is_at_or_after(data.redemption_time) {
            return Err(StakingError::RedemptionNotYetDue);
        }
        proof {
            assert(old(self)@.unstake_receipts[n as int] is Some);
            assert(old(self)@.is_stakable(data.address));
            lemma_finish_unstake_wf(old(self)@, receipt, now@);
        }
        let i = match self.find_unit(&data.address) {
            None => unreached(),
            Some(i) => i,
        };
        proof {
            lemma_index_of(old(self)@, i as int);
            lemma_receipt_covered(old(self)@, receipt);
            if old(self)@.advance(now@) is Some {
                lemma_advance_wf(old(self)@, now@);
                lemma_index_of(old(self)@.advance(now@).unwrap(), i as int);
            }
        }
        let plan = match self.plan_advance(now) {
            Err(e) => {
                return Err(e);
            },
            Ok(plan) => plan,
        };
        let vault = match self.stakes[i].vault.checked_sub(data.amount) {
            None => unreached(),
            Some(vault) => vault,
        };
        let total = self.stakes[i].amount_staked;
        self.apply_advance(plan, Ghost(now@));
        self.set_unit_amounts(i, total, vault);
        self.clear_unstake_receipt(n);
        proof {
            let expected = old(self)@.finish_unstake(receipt, now@).1;
            assert(self@.stakes =~= expected.stakes);
            assert(self@.unstake_receipts =~= expected.unstake_receipts);
        }
        Ok((data.address, data.amount))
    }

    /// What the record at index `k` is owed over the `weeks` periods before
    /// the current one; `None` where a product or a running total overflows.
    fn sum_rewards(&self, k: usize, weeks: i64) -> (r: Option<Decimal>)
        requires
            k < self.ids@.len(),
            self.ids@[k as int].wf(),
            1 <= weeks <= self.current_period < i64::MAX,
        ensures
            r is Some <==> accrue(
                self@.stakes,
                self@.ids[k as int],
                self@.current_period,
                weeks as int,
                self@.stakes.len() as int,
            ) is Some,
            r is Some ==> Some(r.unwrap()@) == accrue(
                self@.stakes,
                self@.ids[k as int],
                self@.current_period,
                weeks as int,
                self@.stakes.len() as int,
            ),
    {
        broadcast use vstd::std_specs::hash::group_hash_axioms;

        let ghost record = self@.ids[k as int];
        let ghost current = self@.current_period;
        let mut total = Decimal::zero();
        let mut i: usize = 0;
        while i < self.stakes.len()
            invariant
                i <= self.stakes@.len(),
                k < self.ids@.len(),
                self.ids@[k as int].wf(),
                1 <= weeks <= self.current_period < i64::MAX,
                record == self@.ids[k as int],
                current == self@.current_period,
                Some(total@) == accrue(self@.stakes, record, current, weeks as int, i as int),
            decreases self.stakes@.len() - i,
        {
            let unit = &self.stakes[i];
            let staked = match self.ids[k].resource(&unit.address) {
                Some(held) => held.amount_staked,
                None => Decimal::zero(),
            };
            let ghost before = Some(total@);
            let mut week: i64 = 1;
            while week <= weeks
                invariant
                    1 <= week <= weeks + 1,
                    i < self.stakes@.len(),
                    1 <= weeks <= self.current_period < i64::MAX,
                    current == self@.current_period,
                    k < self.ids@.len(),
                    record == self@.ids[k as int],
                    before == accrue(self@.stakes, record, current, weeks as int, i as int),
                    *unit == self.stakes@[i as int],
                    staked@ == record.staked(unit.address),
                    Some(total@) == accrue_asset(
                        before,
                        self@.stakes[i as int].rewards,
                        staked@,
                        current,
                        week - 1,
                    ),
                decreases weeks - week + 1,
            {
                let period: i64 = self.current_period - week;
                let ghost sofar = Some(total@);
                match unit.rewards.get(&period) {
                    None => {
                        assert(!self@.stakes[i as int].rewards.contains_key(current - week));
                    },
                    Some(rate) => {
                        assert(self@.stakes[i as int].rewards.contains_key(current - week));
                        assert(self@.stakes[i as int].rewards[current - week] == rate@);
                        let term = match rate.checked_mul(staked) {
                            None => {
                                proof {
                                    assert(accrue_asset(
                                        before,
                                        self@.stakes[i as int].rewards,
                                        staked@,
                                        current,
                                        week as int,
                                    ) is None);
                                    lemma_accrue_asset_stuck(
                                        before,
                                        self@.stakes[i as int].rewards,
                                        staked@,
                                        current,
                                        week as int,
                                        weeks as int,
                                    );
                                    assert(accrue(
                                        self@.stakes,
                                        record,
                                        current,
                                        weeks as int,
                                        i + 1,
                                    ) is None);
                                    lemma_accrue_stuck(
                                        self@.stakes,
                                        record,
                                        current,
                                        weeks as int,
                                        i + 1,
                                        self@.stakes.len() as int,
                                    );
                                }
                                return None;
                            },
                            Some(term) => term,
                        };
                        total = match total.checked_add(term) {
                            None => {
                                proof {
                                    assert(accrue_asset(
                                        before,
                                        self@.stakes[i as int].rewards,
                                        staked@,
                                        current,
                                        week as int,
                                    ) is None);
                                    lemma_accrue_asset_stuck(
                                        before,
                                        self@.stakes[i as int].rewards,
                                        staked@,
                                        current,
                                        week as int,
                                        weeks as int,
                                    );
                                    assert(accrue(
                                        self@.stakes,
                                        record,
                                        current,
                                        weeks as int,
                                        i + 1,
                                    ) is None);
                                    lemma_accrue_stuck(
                                        self@.stakes,
                                        record,
                                        current,
                                        weeks as int,
                                        i + 1,
                                        self@.stakes.len() as int,
                                    );
                                }
                                return None;
                            },
                            Some(sum) => sum,
                        };
                    },
                }
                week = week + 1;
            }
            i = i + 1;
        }
        Some(total)
    }

    /// Pays record `id` what it is owed: for every asset and every
    /// claimable period, the period's rate times the amount the record has
    /// staked. The claimable periods are those since the record's claim
    /// pointer, at most `max_claim_delay`; older ones are forfeited. Once
    /// there is something to claim the pointer moves to the period after the
    /// current one, and stays there where the payout then fails.
    pub fn update_id(&mut self, id: u64, now: Instant) -> (r: Result<Decimal, StakingError>)
        requires
            old(self).wf(),
        ensures
            final(self).wf(),
            (payout_view(r), final(self)@) == old(self)@.update_id(id, now@),
    {
        if id < 1 || id > self.ids.len() as u64 {
            return Err(StakingError::InvalidId);
        }
        let k: usize = (id - 1) as usize;
        proof {
            lemma_update_id_wf(old(self)@, id, now@);
            if old(self)@.advance(now@) is Some {
                lemma_advance_wf(old(self)@, now@);
            }
        }
        let plan = match self.plan_advance(now) {
            Err(e) => {
                return Err(e);
            },
            Ok(plan) => plan,
        };
        let period: i64 = if plan.is_some() {
            self.current_period + 1
        } else {
            self.current_period
        };
        let behind: i64 = period - self.ids[k].next_period + 1;
        let weeks: i64 = if behind > self.max_claim_delay {
            self.max_claim_delay
        } else {
            behind
        };
        if weeks <= 0 {
            return Err(StakingError::NothingToClaim);
        }
        self.apply_advance(plan, Ghost(now@));
        let ghost mid = self@;
        self.set_next_period(k, period + 1);
        proof {
            assert(mid.ids[k as int] == old(self)@.ids[k as int]);
            lemma_accrue_same_positions(
                mid.stakes,
                mid.ids[k as int],
                self@.ids[k as int],
                mid.current_period,
                weeks as int,
                mid.stakes.len() as int,
            );
        }
        let total = match self.sum_rewards(k, weeks) {
            None => {
                return Err(StakingError::Overflow);
            },
            Some(total) => total,
        };
        if total.is_negative() {
            return Err(StakingError::InvalidAmount);
        }
        if self.reward_vault.lt(total) {
            return Err(StakingError::InsufficientBalance);
        }
        let left = match self.reward_vault.checked_sub(total) {
            None => unreached(),
            Some(left) => left,
        };
        self.set_reward_vault(left);
        Ok(total)
    }

    /// Locks the position that record `id` holds in `address` for the
    /// asset's lock duration, unless it is under a lock that has not run
    /// out, and pays the lock bonus on the amount staked out of the reward
    /// vault.
    pub fn lock_stake(&mut self, address: ResourceAddress, id: u64, now: Instant) -> (r: Result<
        Decimal,
        StakingError,
    >)
        requires
            old(self).wf(),
        ensures
            final(self).wf(),
            (payout_view(r), final(self)@) == old(self)@.lock_stake(address, id, now@),
    {
        if id < 1 || id > self.ids.len() as u64 {
            return Err(StakingError::InvalidId);
        }
        let k: usize = (id - 1) as usize;
        let i = match self.find_unit(&address) {
            None => {
                return Err(StakingError::NotStakable);
            },
            Some(i) => i,
        };
        let held = match self.ids[k].resource(&address) {
            None => {
                return Err(StakingError::NoPosition);
            },
            Some(held) => held,
        };
        if let Some(locked_until) = held.locked_until {
            if !now.is_at_or_after(locked_until) {
                return Err(StakingError::AlreadyLocked);
            }
        }
        proof {
            lemma_lock_stake_wf(old(self)@, address, id, now@);
            lemma_index_of(old(self)@, i as int);
            if old(self)@.advance(now@) is Some {
                lemma_advance_wf(old(self)@, now@);
                lemma_index_of(old(self)@.advance(now@).unwrap(), i as int);
            }
        }
        let plan = match self.plan_advance(now) {
            Err(e) => {
                return Err(e);
            },
            Ok(plan) => plan,
        };
        let locked_until = match now.add_days(self.stakes[i].lock.duration) {
            None => {
                return Err(StakingError::Overflow);
            },
            Some(t) => t,
        };
        let bonus = match self.stakes[i].lock.payment.checked_mul(held.amount_staked) {
            None => {
                return Err(StakingError::Overflow);
            },
            Some(bonus) => bonus,
        };
        if bonus.is_negative() {
            return Err(StakingError::InvalidAmount);
        }
        if self.reward_vault.lt(bonus) {
            return Err(StakingError::InsufficientBalance);
        }
        let left = match self.reward_vault.checked_sub(bonus) {
            None => unreached(),
            Some(left) => left,
        };
        self.apply_advance(plan, Ghost(now@));
        let ghost mid = self@;
        self.set_position(
            k,
            address,
            Resource { amount_staked: held.amount_staked, locked_until: Some(locked_until) },
        );
        self.set_reward_vault(left);
        proof {
            let expected = old(self)@.lock_stake(address, id, now@).1;
            assert(mid.ids[k as int] == old(self)@.ids[k as int]);
            assert(self@.ids =~= expected.ids);
        }
        Ok(bonus)
    }

    /// Sets the length of a period in days, which must be positive.
    pub fn set_period_interval(&mut self, new_interval: i64) -> (r: Result<(), StakingError>)
        requires
            old(self).wf(),
        ensures
            final(self).wf(),
            (r, final(self)@) == old(self)@.set_period_interval(new_interval as int),
    {
        if new_interval <= 0 {
            return Err(StakingError::InvalidInterval);
        }
        self.period_interval = new_interval;
        proof {
            self.lemma_rest_unchanged(*old(self));
            lemma_settings_wf(old(self)@, self@);
        }
        Ok(())
    }

    /// Adds `amount` to the reward vault.
    pub fn fill_rewards(&mut self, amount: Decimal) -> (r: Result<(), StakingError>)
        requires
            old(self).wf(),
        ensures
            final(self).wf(),
            (r, final(self)@) == old(self)@.fill_rewards(amount@),
    {
        if amount.is_negative() {
            return Err(StakingError::InvalidAmount);
        }
        match self.reward_vault.checked_add(amount) {
            None => Err(StakingError::Overflow),
            Some(sum) => {
                proof {
                    lemma_reward_vault_wf(old(self)@, sum@);
                }
                self.set_reward_vault(sum);
                Ok(())
            },
        }
    }

    /// Takes `amount` out of the reward vault and returns it.
    pub fn remove_rewards(&mut self, amount: Decimal) -> (r: Result<Decimal, StakingError>)
        requires
            old(self).wf(),
        ensures
            final(self).wf(),
            (payout_view(r), final(self)@) == old(self)@.remove_rewards(amount@),
    {
        if amount.is_negative() {
            return Err(StakingError::InvalidAmount);
        }
        if self.reward_vault.lt(amount) {
            return Err(StakingError::InsufficientBalance);
        }
        match self.reward_vault.checked_sub(amount) {
            None => unreached(),
            Some(left) => {
                proof {
                    lemma_reward_vault_wf(old(self)@, left@);
                }
                self.set_reward_vault(left);
                Ok(amount)
            },
        }
    }

    /// Sets the number of periods for which rewards stay claimable.
    pub fn set_max_claim_delay(&mut self, new_delay: i64)
        requires
            old(self).wf(),
        ensures
            final(self).wf(),
            final(self)@ == old(self)@.set_max_claim_delay(new_delay as int),
    {
        self.max_claim_delay = new_delay;
        proof {
            self.lemma_rest_unchanged(*old(self));
            lemma_settings_wf(old(self)@, self@);
        }
    }

    /// Sets the unstake delay in days, at most the ceiling set at construction.
    pub fn set_unstake_delay(&mut self, new_delay: i64) -> (r: Result<(), StakingError>)
        requires
            old(self).wf(),
        ensures
            final(self).wf(),
            (r, final(self)@) == old(self)@.set_unstake_delay(new_delay as int),
    {
        if new_delay > self.max_unstaking_delay {
            return Err(StakingError::DelayTooLong);
        }
        self.unstake_delay = new_delay;
        proof {
            self.lemma_rest_unchanged(*old(self));
            lemma_settings_wf(old(self)@, self@);
        }
        Ok(())
    }

    /// Sets what a period pays for the asset at `address`.
    pub fn set_rewards(&mut self, address: ResourceAddress, reward: Decimal) -> (r: Result<
        (),
        StakingError,
    >)
        requires
            old(self).wf(),
        ensures
            final(self).wf(),
            (r, final(self)@) == old(self)@.set_rewards(address, reward@),
    {
        let i = match self.find_unit(&address) {
            None => {
                return Err(StakingError::NotStakable);
            },
            Some(i) => i,
        };
        self.stakes[i].reward_amount = reward;
        proof {
            lemma_index_of(old(self)@, i as int);
            let expected = old(self)@.set_rewards(address, reward@).1;
            assert(self@.stakes =~= expected.stakes);
            assert(self@.ids =~= expected.ids);
            assert(self@.unstake_receipts =~= expected.unstake_receipts);
            assert(self@.stake_transfer_receipts =~= expected.stake_transfer_receipts);
            lemma_settings_wf(old(self)@, self@);
        }
        Ok(())
    }

    /// Makes the asset at `address` stakable, with nothing staked, nothing
    /// in custody and no rate recorded.
    pub fn add_stakable(&mut self, address: ResourceAddress, reward_amount: Decimal, lock: Lock) -> (r:
        Result<(), StakingError>)
        requires
            old(self).wf(),
        ensures
            final(self).wf(),
            (r, final(self)@) == old(self)@.add_stakable(
                address,
                reward_amount@,
                lock.payment@,
                lock.duration as int,
            ),
    {
        broadcast use vstd::std_specs::hash::group_hash_axioms;

        if self.find_unit(&address).is_some() {
            return Err(StakingError::AlreadyStakable);
        }
        self.stakes.push(
            StakableUnit {
                address,
                amount_staked: Decimal::zero(),
                vault: Decimal::zero(),
                reward_amount,
                lock,
                rewards: HashMap::new(),
            },
        );
        proof {
            let expected = old(self)@.add_stakable(
                address,
                reward_amount@,
                lock.payment@,
                lock.duration as int,
            ).1;
            assert(self.stakes@.last()@.rewards =~= Map::<int, int>::empty());
            assert(self@.stakes =~= expected.stakes);
            assert(self@.ids =~= expected.ids);
            assert(self@.unstake_receipts =~= expected.unstake_receipts);
            assert(self@.stake_transfer_receipts =~= expected.stake_transfer_receipts);
            lemma_add_stakable_wf(
                old(self)@,
                address,
                reward_amount@,
                lock.payment@,
                lock.duration as int,
            );
        }
        Ok(())
    }

    /// Sets what a period pays and what a lock pays for the asset at `address`.
    pub fn edit_stakable(&mut self, address: ResourceAddress, reward_amount: Decimal, lock: Lock) -> (r:
        Result<(), StakingError>)
        requires
            old(self).wf(),
        ensures
            final(self).wf(),
            (r, final(self)@) == old(self)@.edit_stakable(
                address,
                reward_amount@,
                lock.payment@,
                lock.duration as int,
            ),
    {
        let i = match self.find_unit(&address) {
            None => {
                return Err(StakingError::NotStakable);
            },
            Some(i) => i,
        };
        self.stakes[i].reward_amount = reward_amount;
        self.stakes[i].lock = lock;
        proof {
            lemma_index_of(old(self)@, i as int);
            let expected = old(self)@.edit_stakable(
                address,
                reward_amount@,
                lock.payment@,
                lock.duration as int,
            ).1;
            assert(self@.stakes =~= expected.stakes);
            assert(self@.ids =~= expected.ids);
            assert(self@.unstake_receipts =~= expected.unstake_receipts);
            assert(self@.stake_transfer_receipts =~= expected.stake_transfer_receipts);
            lemma_settings_wf(old(self)@, self@);
        }
        Ok(())
    }

    /// Makes the next period due at `now`.
    pub fn set_next_period_to_now(&mut self, now: Instant)
        requires
            old(self).wf(),
        ensures
            final(self).wf(),
            final(self)@ == old(self)@.set_next_period_to_now(now@),
    {
        self.next_period = now;
        proof {
            self.lemma_rest_unchanged(*old(self));
            lemma_settings_wf(old(self)@, self@);
        }
    }

    /// Locks the position that record `id` holds in `address` until
    /// `lock_until`, whatever lock it was under. Only where a DAO controls
    /// the staking.
    pub fn set_lock(&mut self, address: ResourceAddress, lock_until: Instant, id: u64) -> (r: Result<
        (),
        StakingError,
    >)
        requires
            old(self).wf(),
        ensures
            final(self).wf(),
            (r, final(self)@) == old(self)@.set_lock(address, lock_until@, id),
    {
        if !self.dao_controlled {
            return Err(StakingError::NotDaoControlled);
        }
        if id < 1 || id > self.ids.len() as u64 {
            return Err(StakingError::InvalidId);
        }
        let k: usize = (id - 1) as usize;
        let held = match self.ids[k].resource(&address) {
            None => {
                return Err(StakingError::NoPosition);
            },
            Some(held) => held,
        };
        proof {
            lemma_set_lock_wf(old(self)@, address, lock_until@, id);
        }
        self.set_position(
            k,
            address,
            Resource { amount_staked: held.amount_staked, locked_until: Some(lock_until) },
        );
        Ok(())
    }

    /// The sequences of the view follow the vectors: where those are those
    /// of `other`, so are these.
    proof fn lemma_rest_unchanged(&self, other: Staking)
        requires
            self.stakes == other.stakes,
            self.ids == other.ids,
            self.unstake_receipts == other.unstake_receipts,
            self.stake_transfer_receipts == other.stake_transfer_receipts,
        ensures
            self@.stakes == other@.stakes,
            self@.ids == other@.ids,
            self@.unstake_receipts == other@.unstake_receipts,
            self@.stake_transfer_receipts == other@.stake_transfer_receipts,
            self.ids_wf() == other.ids_wf(),
    {
    }

    // ----- keeping the ledger between calls -----

    /// Takes the ledger apart into plain data.
    pub fn into_snapshot(self) -> (r: Snapshot)
        requires
            self.wf(),
        ensures
            r.wf(),
            r@ == self@,
    {
        let r = Snapshot {
            period_interval: self.period_interval,
            next_period: self.next_period,
            current_period: self.current_period,
            max_claim_delay: self.max_claim_delay,
            max_unstaking_delay: self.max_unstaking_delay,
            unstake_delay: self.unstake_delay,
            reward_vault: self.reward_vault,
            stakes: self.stakes,
            ids: self.ids,
            unstake_receipts: self.unstake_receipts,
            stake_transfer_receipts: self.stake_transfer_receipts,
            dao_controlled: self.dao_controlled,
        };
        proof {
            assert(r@.stakes =~= self@.stakes);
            assert(r@.ids =~= self@.ids);
            assert(r@.unstake_receipts =~= self@.unstake_receipts);
            assert(r@.stake_transfer_receipts =~= self@.stake_transfer_receipts);
        }
        r
    }

    /// Puts a ledger together from plain data, where the data is the state
    /// of a well-formed ledger; `None` where it is not.
    pub fn from_snapshot(snapshot: Snapshot) -> (r: Option<Staking>)
        ensures
            r is Some <==> snapshot.wf(),
            r is Some ==> r.unwrap().wf() && r.unwrap()@ == snapshot@,
    {
        if !snapshot.is_wf() {
            return None;
        }
        let ghost view = snapshot@;
        let s = Staking {
            period_interval: snapshot.period_interval,
            next_period: snapshot.next_period,
            current_period: snapshot.current_period,
            max_claim_delay: snapshot.max_claim_delay,
            max_unstaking_delay: snapshot.max_unstaking_delay,
            unstake_delay: snapshot.unstake_delay,
            reward_vault: snapshot.reward_vault,
            stakes: snapshot.stakes,
            ids: snapshot.ids,
            unstake_receipts: snapshot.unstake_receipts,
            stake_transfer_receipts: snapshot.stake_transfer_receipts,
            dao_controlled: snapshot.dao_controlled,
        };
        proof {
            assert(s@.stakes =~= view.stakes);
            assert(s@.ids =~= view.ids);
            assert(s@.unstake_receipts =~= view.unstake_receipts);
            assert(s@.stake_transfer_receipts =~= view.stake_transfer_receipts);
        }
        Some(s)
    }

    // ----- reading the ledger -----

    /// Length of a period in days.
    pub fn period_interval(&self) -> (r: i64)
        ensures
            r == self@.period_interval,
    {
        self.period_interval
    }

    /// Time at which the next period is due.
    pub fn next_period(&self) -> (r: Instant)
        ensures
            r@ == self@.next_period,
    {
        self.next_period
    }

    /// The current period.
    pub fn current_period(&self) -> (r: i64)
        ensures
            r == self@.current_period,
    {
        self.current_period
    }

    /// Number of periods for which rewards stay claimable.
    pub fn max_claim_delay(&self) -> (r: i64)
        ensures
            r == self@.max_claim_delay,
    {
        self.max_claim_delay
    }

    /// Ceiling of the unstake delay, in days.
    pub fn max_unstaking_delay(&self) -> (r: i64)
        ensures
            r == self@.max_unstaking_delay,
    {
        self.max_unstaking_delay
    }

    /// Delay between an unstake request and its redemption, in days.
    pub fn unstake_delay(&self) -> (r: i64)
        ensures
            r == self@.unstake_delay,
    {
        self.unstake_delay
    }

    /// Whether a DAO controls the staking.
    pub fn dao_controlled(&self) -> (r: bool)
        ensures
            r == self@.dao_controlled,
    {
        self.dao_controlled
    }

    /// Balance of the reward vault.
    pub fn reward_vault(&self) -> (r: Decimal)
        ensures
            r@ == self@.reward_vault,
    {
        self.reward_vault
    }

    /// Number of staking records created so far.
    pub fn id_counter(&self) -> (r: u64)
        ensures
            r == self@.ids.len(),
    {
        self.ids.len() as u64
    }

    /// Number of unstake receipts issued so far.
    pub fn unstake_receipt_counter(&self) -> (r: u64)
        ensures
            r == self@.unstake_receipts.len(),
    {
        self.unstake_receipts.len() as u64
    }

    /// Number of stake transfer receipts issued so far.
    pub fn stake_transfer_receipt_counter(&self) -> (r: u64)
        ensures
            r == self@.stake_transfer_receipts.len(),
    {
        self.stake_transfer_receipts.len() as u64
    }

    /// The stakable asset at `address`.
    pub fn stakable(&self, address: &ResourceAddress) -> (r: Option<&StakableUnit>)
        requires
            self.wf(),
        ensures
            r is Some <==> self@.is_stakable(*address),
            r is Some ==> r.unwrap()@ == self@.unit(*address),
    {
        match self.find_unit(address) {
            None => None,
            Some(i) => {
                proof {
                    lemma_index_of(self@, i as int);
                }
                Some(&self.stakes[i])
            },
        }
    }

    /// The staking record with number `id`.
    pub fn id_data(&self, id: u64) -> (r: Option<&Id>)
        requires
            self.wf(),
        ensures
            r is Some <==> self@.has_id(id),
            r is Some ==> r.unwrap()@ == self@.id(id) && r.unwrap().wf(),
    {
        if id < 1 || id > self.ids.len() as u64 {
            None
        } else {
            Some(&self.ids[(id - 1) as usize])
        }
    }

    /// The pending unstake receipt with number `receipt`.
    pub fn unstake_receipt_data(&self, receipt: u64) -> (r: Option<UnstakeReceipt>)
        ensures
            r is Some <==> self@.has_unstake_receipt(receipt),
            r is Some ==> r.unwrap()@ == self@.unstake_receipt(receipt),
    {
        if receipt < 1 || receipt > self.unstake_receipts.len() as u64 {
            None
        } else {
            self.unstake_receipts[(receipt - 1) as usize]
        }
    }

    /// The pending stake transfer receipt with number `receipt`.
    pub fn stake_transfer_receipt_data(&self, receipt: u64) -> (r: Option<StakeTransferReceipt>)
        ensures
            r is Some <==> self@.has_stake_transfer_receipt(receipt),
            r is Some ==> r.unwrap()@ == self@.stake_transfer_receipt(receipt),
    {
        if receipt < 1 || receipt > self.stake_transfer_receipts.len() as u64 {
            None
        } else {
            self.stake_transfer_receipts[(receipt - 1) as usize]
        }
    }

    /// Where the asset at `address` stands in the registry.
    fn find_unit(&self, address: &ResourceAddress) -> (r: Option<usize>)
        ensures
            r is Some <==> self@.is_stakable(*address),
            r is Some ==> r.unwrap() < self.stakes.len() && self.stakes[r.unwrap() as int].address
                == *address,
    {
        let r = crate::records::find_unit(&self.stakes, address);
        proof {
            if r is Some {
                assert(self@.stakes[r.unwrap() as int].address == *address);
            }
            if self@.is_stakable(*address) {
                let i = self@.index_of(*address);
                assert(self.stakes@[i].address == *address);
            }
        }
        r
    }
}

/// Once the running total of an asset has left the range it stays out.
proof fn lemma_accrue_asset_stuck(
    acc: Option<int>,
    rewards: Map<int, int>,
    staked: int,
    current: int,
    from: int,
    weeks: int,
)
    requires
        from <= weeks,
        accrue_asset(acc, rewards, staked, current, from) is None,
    ensures
        accrue_asset(acc, rewards, staked, current, weeks) is None,
    decreases weeks - from,
{
    if from < weeks {
        lemma_accrue_asset_stuck(acc, rewards, staked, current, from, weeks - 1);
    }
}

/// Once the running total over the assets has left the range it stays out.
proof fn lemma_accrue_stuck(
    stakes: Seq<crate::model::StakableUnitView>,
    record: IdView,
    current: int,
    weeks: int,
    from: int,
    n: int,
)
    requires
        from <= n,
        accrue(stakes, record, current, weeks, from) is None,
    ensures
        accrue(stakes, record, current, weeks, n) is None,
    decreases n - from,
{
    if from < n {
        lemma_accrue_stuck(stakes, record, current, weeks, from, n - 1);
        if weeks > 0 {
            lemma_accrue_asset_stuck(
                None,
                stakes[n - 1].rewards,
                record.staked(stakes[n - 1].address),
                current,
                0,
                weeks,
            );
        }
    }
}

} // verus!
