//! The ledger as a mathematical object: what the state is, which states are
//! well formed, and what each operation makes of a state.
//!
//! Amounts are subunit counts, instants are seconds, periods are integers.
//! Every operation is a function from a state and its arguments to an outcome
//! and the state that follows. A rejected operation leaves the state as it
//! was, with one exception that `update_id` documents.

use vstd::prelude::*;
use crate::address::ResourceAddress;
use crate::decimal::{narrowable, product, ratio, representable};
use crate::error::StakingError;
use crate::time::{days_after, seconds_in_a_day};

verus! {

/// One asset's position inside a staking record.
pub struct ResourceView {
    pub amount_staked: int,
    pub locked_until: Option<int>,
}

/// A staking record: positions by asset, and the first period not yet claimed.
pub struct IdView {
    pub resources: Map<ResourceAddress, ResourceView>,
    pub next_period: int,
}

/// A stakable asset with its custody balance and its reward rates by period.
pub struct StakableUnitView {
    pub address: ResourceAddress,
    pub amount_staked: int,
    pub vault: int,
    pub reward_amount: int,
    pub lock_payment: int,
    pub lock_duration: int,
    pub rewards: Map<int, int>,
}

/// A pending withdrawal.
pub struct UnstakeReceiptView {
    pub address: ResourceAddress,
    pub amount: int,
    pub redemption_time: int,
}

/// A detached position that any record may stake again.
pub struct StakeTransferReceiptView {
    pub address: ResourceAddress,
    pub amount: int,
}

/// What is handed over when staking.
pub enum DepositView {
    /// An amount of the asset at the given address.
    Tokens(ResourceAddress, int),
    /// The transfer receipt with the given number.
    TransferReceipt(u64),
}

/// The receipt that `start_unstake` issues, by its number.
#[derive(Clone, Copy, Debug, PartialEq, Eq, Structural)]
pub enum IssuedReceipt {
    Unstake(u64),
    Transfer(u64),
}

/// The whole ledger. Records and receipts are numbered from 1 in the order
/// of their creation; a redeemed receipt leaves `None` behind.
pub struct StakingView {
    pub period_interval: int,
    pub next_period: int,
    pub current_period: int,
    pub max_claim_delay: int,
    pub max_unstaking_delay: int,
    pub unstake_delay: int,
    pub reward_vault: int,
    pub stakes: Seq<StakableUnitView>,
    pub ids: Seq<IdView>,
    pub unstake_receipts: Seq<Option<UnstakeReceiptView>>,
    pub stake_transfer_receipts: Seq<Option<StakeTransferReceiptView>>,
    pub dao_controlled: bool,
}

impl IdView {
    /// Amount of `address` staked in this record; zero without a position.
    pub open spec fn staked(self, address: ResourceAddress) -> int {
        if self.resources.contains_key(address) {
            self.resources[address].amount_staked
        } else {
            0
        }
    }

    /// Whether the position in `address` is under a lock that has not run out at `now`.
    pub open spec fn locked_at(self, address: ResourceAddress, now: int) -> bool {
        &&& self.resources.contains_key(address)
        &&& self.resources[address].locked_until is Some
        &&& now < self.resources[address].locked_until.unwrap()
    }

    /// This record with its claim pointer at `next_period`.
    pub open spec fn with_next_period(self, next_period: int) -> IdView {
        IdView { next_period, ..self }
    }

    /// This record with `resource` as its position in `address`.
    pub open spec fn with_resource(self, address: ResourceAddress, resource: ResourceView) -> IdView {
        IdView { resources: self.resources.insert(address, resource), ..self }
    }
}

impl StakableUnitView {
    /// The reward per staked unit that closing a period records for this asset.
    pub open spec fn closing_rate(self) -> int {
        if self.amount_staked > 0 {
            ratio(self.reward_amount, self.amount_staked)
        } else {
            0
        }
    }

    /// This asset with its closing rate recorded for `period`.
    pub open spec fn with_rate(self, period: int) -> StakableUnitView {
        StakableUnitView { rewards: self.rewards.insert(period, self.closing_rate()), ..self }
    }

    /// This asset with `amount_staked` staked and `vault` in custody.
    pub open spec fn with_amounts(self, amount_staked: int, vault: int) -> StakableUnitView {
        StakableUnitView { amount_staked, vault, ..self }
    }
}

/// Total of `address` staked over all the records.
pub open spec fn staked_sum(ids: Seq<IdView>, address: ResourceAddress) -> int
    decreases ids.len(),
{
    if ids.len() == 0 {
        0
    } else {
        staked_sum(ids.drop_last(), address) + ids.last().staked(address)
    }
}

/// Sum of the amounts.
pub open spec fn total(amounts: Seq<int>) -> int
    decreases amounts.len(),
{
    if amounts.len() == 0 {
        0
    } else {
        total(amounts.drop_last()) + amounts.last()
    }
}

/// What each unstake receipt still claims of `address`: its amount while it
/// is pending and for that asset, nothing otherwise.
pub open spec fn unstakes_of(receipts: Seq<Option<UnstakeReceiptView>>, address: ResourceAddress) -> Seq<
    int,
> {
    Seq::new(
        receipts.len(),
        |n: int|
            match receipts[n] {
                Some(r) => if r.address == address {
                    r.amount
                } else {
                    0
                },
                None => 0,
            },
    )
}

/// What each stake transfer receipt still claims of `address`.
pub open spec fn transfers_of(
    receipts: Seq<Option<StakeTransferReceiptView>>,
    address: ResourceAddress,
) -> Seq<int> {
    Seq::new(
        receipts.len(),
        |n: int|
            match receipts[n] {
                Some(r) => if r.address == address {
                    r.amount
                } else {
                    0
                },
                None => 0,
            },
    )
}

/// `acc` plus `term`, where `acc` is still in range, `term` can come out of
/// a multiplication and the sum is in range.
pub open spec fn accrued(acc: Option<int>, term: int) -> Option<int> {
    if acc is Some && narrowable(term) && representable(acc.unwrap() + term) {
        Some(acc.unwrap() + term)
    } else {
        None
    }
}

/// Adds to `acc` what one asset owes over the `weeks` periods before
/// `current`, newest first: for each period with a recorded rate, the rate
/// times the amount staked. `None` once a product or a running total leaves
/// the range of an amount.
pub open spec fn accrue_asset(
    acc: Option<int>,
    rewards: Map<int, int>,
    staked: int,
    current: int,
    weeks: int,
) -> Option<int>
    decreases weeks,
{
    if weeks <= 0 {
        acc
    } else {
        let before = accrue_asset(acc, rewards, staked, current, weeks - 1);
        if rewards.contains_key(current - weeks) {
            accrued(before, product(rewards[current - weeks], staked))
        } else {
            before
        }
    }
}

/// What the first `n` assets owe a record over the `weeks` periods before
/// `current`, asset by asset in registration order.
pub open spec fn accrue(
    stakes: Seq<StakableUnitView>,
    record: IdView,
    current: int,
    weeks: int,
    n: int,
) -> Option<int>
    decreases n,
{
    if n <= 0 {
        Some(0)
    } else {
        accrue_asset(
            accrue(stakes, record, current, weeks, n - 1),
            stakes[n - 1].rewards,
            record.staked(stakes[n - 1].address),
            current,
            weeks,
        )
    }
}

impl StakingView {
    // ----- looking things up -----

    /// Whether `address` is that of a registered asset.
    pub open spec fn is_stakable(self, address: ResourceAddress) -> bool {
        exists|i: int| 0 <= i < self.stakes.len() && (#[trigger] self.stakes[i]).address == address
    }

    /// Index of the asset at `address` in the registry, where it is stakable.
    pub open spec fn index_of(self, address: ResourceAddress) -> int {
        choose|i: int| 0 <= i < self.stakes.len() && (#[trigger] self.stakes[i]).address == address
    }

    /// The asset at `address`, where it is stakable.
    pub open spec fn unit(self, address: ResourceAddress) -> StakableUnitView {
        self.stakes[self.index_of(address)]
    }

    /// Whether a record has the number `id`.
    pub open spec fn has_id(self, id: u64) -> bool {
        1 <= id <= self.ids.len()
    }

    /// The record with the number `id`.
    pub open spec fn id(self, id: u64) -> IdView {
        self.ids[id - 1]
    }

    /// Whether an unstake receipt has the number `receipt` and is pending.
    pub open spec fn has_unstake_receipt(self, receipt: u64) -> bool {
        1 <= receipt <= self.unstake_receipts.len() && self.unstake_receipts[receipt - 1] is Some
    }

    /// The pending unstake receipt with the number `receipt`.
    pub open spec fn unstake_receipt(self, receipt: u64) -> UnstakeReceiptView {
        self.unstake_receipts[receipt - 1].unwrap()
    }

    /// Whether a stake transfer receipt has the number `receipt` and is pending.
    pub open spec fn has_stake_transfer_receipt(self, receipt: u64) -> bool {
        1 <= receipt <= self.stake_transfer_receipts.len() && self.stake_transfer_receipts[receipt
            - 1] is Some
    }

    /// The pending stake transfer receipt with the number `receipt`.
    pub open spec fn stake_transfer_receipt(self, receipt: u64) -> StakeTransferReceiptView {
        self.stake_transfer_receipts[receipt - 1].unwrap()
    }

    // ----- well-formedness -----

    /// No address is registered twice.
    pub open spec fn distinct_stakes(self) -> bool {
        forall|i: int, j: int|
            0 <= i < j < self.stakes.len() ==> (#[trigger] self.stakes[i]).address != (
            #[trigger] self.stakes[j]).address
    }

    /// Every asset's total is the sum of its positions over all the records.
    pub open spec fn conserved(self) -> bool {
        forall|i: int|
            0 <= i < self.stakes.len() ==> (#[trigger] self.stakes[i]).amount_staked == staked_sum(
                self.ids,
                self.stakes[i].address,
            )
    }

    /// Rates exist only for closed periods, and no custody balance is negative.
    pub open spec fn stakes_sound(self) -> bool {
        forall|i: int|
            0 <= i < self.stakes.len() ==> {
                &&& (#[trigger] self.stakes[i]).vault >= 0
                &&& forall|p: int| #[trigger]
                    self.stakes[i].rewards.contains_key(p) ==> 0 <= p < self.current_period
            }
    }

    /// A record claims from period 1 on and never beyond the period after the
    /// current one; its positions are in stakable assets and not negative.
    pub open spec fn ids_sound(self) -> bool {
        forall|k: int|
            0 <= k < self.ids.len() ==> {
                &&& 1 <= (#[trigger] self.ids[k]).next_period <= self.current_period + 1
                &&& forall|a: ResourceAddress| #[trigger]
                    self.ids[k].resources.contains_key(a) ==> self.is_stakable(a)
                        && self.ids[k].resources[a].amount_staked >= 0
            }
    }

    /// A pending receipt is for a stakable asset and an amount that is not negative.
    pub open spec fn receipts_sound(self) -> bool {
        &&& forall|k: int|
            0 <= k < self.unstake_receipts.len() && (#[trigger] self.unstake_receipts[k]) is Some
                ==> self.is_stakable(self.unstake_receipts[k].unwrap().address)
                && self.unstake_receipts[k].unwrap().amount >= 0
        &&& forall|k: int|
            0 <= k < self.stake_transfer_receipts.len() && (
            #[trigger] self.stake_transfer_receipts[k]) is Some ==> self.is_stakable(
                self.stake_transfer_receipts[k].unwrap().address,
            ) && self.stake_transfer_receipts[k].unwrap().amount >= 0
    }

    /// What the pending receipts claim of `address`: unstaked, not yet withdrawn.
    pub open spec fn pending(self, address: ResourceAddress) -> int {
        total(unstakes_of(self.unstake_receipts, address)) + total(
            transfers_of(self.stake_transfer_receipts, address),
        )
    }

    /// Every asset's custody vault holds what is staked of it and what the
    /// pending receipts claim of it, and nothing else.
    pub open spec fn solvent(self) -> bool {
        forall|i: int|
            0 <= i < self.stakes.len() ==> (#[trigger] self.stakes[i]).vault
                == self.stakes[i].amount_staked + self.pending(self.stakes[i].address)
    }

    /// What holds of the ledger between any two operations.
    pub open spec fn wf(self) -> bool {
        &&& self.period_interval > 0
        &&& 0 <= self.current_period < i64::MAX
        &&& self.unstake_delay <= self.max_unstaking_delay
        &&& self.reward_vault >= 0
        &&& self.distinct_stakes()
        &&& self.conserved()
        &&& self.solvent()
        &&& self.stakes_sound()
        &&& self.ids_sound()
        &&& self.receipts_sound()
    }

    /// The unstake delay a ledger starts with: seven days, or the ceiling
    /// where that is lower.
    pub open spec fn initial_unstake_delay(max_unstaking_delay: int) -> int {
        if max_unstaking_delay < 7 {
            max_unstaking_delay
        } else {
            7
        }
    }

    /// The ledger at construction: no assets, records or receipts, period 0,
    /// the first period due one interval after `now`, rewards claimable for
    /// five periods, unstaking delayed by seven days or by the ceiling where
    /// that is lower.
    pub open spec fn new(
        rewards: int,
        period_interval: int,
        dao_controlled: bool,
        max_unstaking_delay: int,
        now: int,
    ) -> Result<StakingView, StakingError> {
        if period_interval <= 0 {
            Err(StakingError::InvalidInterval)
        } else if rewards < 0 {
            Err(StakingError::InvalidAmount)
        } else if days_after(now, period_interval) is None {
            Err(StakingError::Overflow)
        } else {
            Ok(
                StakingView {
                    period_interval,
                    next_period: days_after(now, period_interval).unwrap(),
                    current_period: 0,
                    max_claim_delay: 5,
                    max_unstaking_delay,
                    unstake_delay: Self::initial_unstake_delay(max_unstaking_delay),
                    reward_vault: rewards,
                    stakes: Seq::empty(),
                    ids: Seq::empty(),
                    unstake_receipts: Seq::empty(),
                    stake_transfer_receipts: Seq::empty(),
                    dao_controlled,
                },
            )
        }
    }

    // ----- rewriting parts of the state -----

    /// This ledger with `unit` in the place of the asset at `address`.
    pub open spec fn with_unit(self, address: ResourceAddress, unit: StakableUnitView) -> StakingView {
        StakingView { stakes: self.stakes.update(self.index_of(address), unit), ..self }
    }

    /// This ledger with `record` in the place of record `id`.
    pub open spec fn with_id(self, id: u64, record: IdView) -> StakingView {
        StakingView { ids: self.ids.update(id - 1, record), ..self }
    }

    /// This ledger with `reward_vault` in the reward vault.
    pub open spec fn with_reward_vault(self, reward_vault: int) -> StakingView {
        StakingView { reward_vault, ..self }
    }

    // ----- the period clock -----

    /// Whether every asset's closing rate can be recorded.
    pub open spec fn rates_fit(self) -> bool {
        forall|i: int|
            0 <= i < self.stakes.len() ==> narrowable((#[trigger] self.stakes[i]).closing_rate())
    }

    /// Whole intervals that have gone by at `now` since the next period was due.
    pub open spec fn elapsed_periods(self, now: int) -> int {
        (now - self.next_period) / (self.period_interval * seconds_in_a_day())
    }

    /// When the period after the one closed at `now` begins: the catch-up
    /// jump over every interval that has gone by.
    pub open spec fn next_start(self, now: int) -> Option<int> {
        days_after(self.next_period, (1 + self.elapsed_periods(now)) * self.period_interval)
    }

    /// Whether a period is due at `now` and can be closed.
    pub open spec fn can_close(self, now: int) -> bool {
        &&& self.rates_fit()
        &&& self.current_period + 1 < i64::MAX
        &&& self.next_start(now) is Some
    }

    /// The state after closing the current period at `now`: one rate recorded
    /// for every asset, the period counted up, the next start moved on.
    pub open spec fn closed(self, now: int) -> StakingView {
        StakingView {
            stakes: Seq::new(
                self.stakes.len(),
                |i: int| self.stakes[i].with_rate(self.current_period),
            ),
            current_period: self.current_period + 1,
            next_period: self.next_start(now).unwrap(),
            ..self
        }
    }

    /// The lazy advance that opens every operation: nothing before the next
    /// period is due, one close at or after it, `None` where the close
    /// cannot be computed.
    pub open spec fn advance(self, now: int) -> Option<StakingView> {
        if now < self.next_period {
            Some(self)
        } else if self.can_close(now) {
            Some(self.closed(now))
        } else {
            None
        }
    }

    /// The advance as an operation of its own: rejected only where a due
    /// period cannot be closed.
    pub open spec fn update_period(self, now: int) -> (Result<(), StakingError>, StakingView) {
        match self.advance(now) {
            None => (Err(StakingError::Overflow), self),
            Some(s) => (Ok(()), s),
        }
    }

    // ----- records -----

    /// After the advance, appends an empty record that claims from the
    /// period after the current one, and returns its number.
    pub open spec fn create_id(self, now: int) -> (Result<u64, StakingError>, StakingView) {
        match self.advance(now) {
            None => (Err(StakingError::Overflow), self),
            Some(s) => if s.ids.len() >= u64::MAX {
                (Err(StakingError::Overflow), self)
            } else {
                (
                    Ok((s.ids.len() + 1) as u64),
                    StakingView {
                        ids: s.ids.push(
                            IdView { resources: Map::empty(), next_period: s.current_period + 1 },
                        ),
                        ..s
                    },
                )
            },
        }
    }

    // ----- stake -----

    /// Credits `amount` of `address` to record `id`, after the advance. With
    /// `deposited` the amount also enters the asset's custody balance.
    pub open spec fn credit(
        self,
        address: ResourceAddress,
        amount: int,
        deposited: bool,
        id: u64,
        now: int,
    ) -> Result<StakingView, StakingError> {
        match self.advance(now) {
            None => Err(StakingError::Overflow),
            Some(s) => {
                let unit = s.unit(address);
                let record = s.id(id);
                let vault = if deposited {
                    unit.vault + amount
                } else {
                    unit.vault
                };
                if record.next_period <= s.current_period {
                    Err(StakingError::UnclaimedRewardsPending)
                } else if !representable(unit.amount_staked + amount) || !representable(vault) {
                    Err(StakingError::Overflow)
                } else {
                    Ok(
                        s.with_unit(address, unit.with_amounts(unit.amount_staked + amount, vault))
                            .with_id(
                            id,
                            record.with_resource(
                                address,
                                ResourceView {
                                    amount_staked: record.staked(address) + amount,
                                    locked_until: if record.resources.contains_key(address) {
                                        record.resources[address].locked_until
                                    } else {
                                        None
                                    },
                                },
                            ).with_next_period(s.current_period + 1),
                        ),
                    )
                }
            },
        }
    }

    /// Stakes a deposit in `address` to record `id`. Rejected, in this
    /// order: where no record has the number; where the address is not
    /// stakable; where the tokens are of another asset or a negative amount,
    /// or the transfer receipt is not pending or of another asset; where the
    /// advance fails; where the record has not claimed every closed period;
    /// where a total leaves the range. Otherwise the amount is added to the
    /// position and to the asset's total, tokens enter custody, a receipt is
    /// used up, and the record claims from the period after the current one.
    pub open spec fn stake(self, address: ResourceAddress, deposit: DepositView, id: u64, now: int) -> (
        Result<(), StakingError>,
        StakingView,
    ) {
        if !self.has_id(id) {
            (Err(StakingError::InvalidId), self)
        } else if !self.is_stakable(address) {
            (Err(StakingError::NotStakable), self)
        } else {
            match deposit {
                DepositView::Tokens(sent, amount) => {
                    if sent != address {
                        (Err(StakingError::WrongAsset), self)
                    } else if amount < 0 {
                        (Err(StakingError::InvalidAmount), self)
                    } else {
                        match self.credit(address, amount, true, id, now) {
                            Err(e) => (Err(e), self),
                            Ok(s) => (Ok(()), s),
                        }
                    }
                },
                DepositView::TransferReceipt(receipt) => {
                    if !self.has_stake_transfer_receipt(receipt) {
                        (Err(StakingError::ReceiptNotFound), self)
                    } else if self.stake_transfer_receipt(receipt).address != address {
                        (Err(StakingError::WrongAsset), self)
                    } else {
                        match self.credit(
                            address,
                            self.stake_transfer_receipt(receipt).amount,
                            false,
                            id,
                            now,
                        ) {
                            Err(e) => (Err(e), self),
                            Ok(s) => (
                                Ok(()),
                                StakingView {
                                    stake_transfer_receipts: s.stake_transfer_receipts.update(
                                        receipt - 1,
                                        None,
                                    ),
                                    ..s
                                },
                            ),
                        }
                    }
                },
            }
        }
    }

    // ----- lock -----

    /// Locks the position of record `id` in `address`. Rejected, in this
    /// order: where no record has the number; where the address is not
    /// stakable; where the record has no position in it; where the position
    /// is under a lock that has not run out; where the advance fails; where
    /// the end of the lock or the bonus leaves the range; where the bonus is
    /// negative; where the reward vault holds less than the bonus. Otherwise
    /// the position is locked until the asset's lock duration after `now`,
    /// and the bonus, the asset's lock payment times the amount staked,
    /// leaves the reward vault.
    pub open spec fn lock_stake(self, address: ResourceAddress, id: u64, now: int) -> (
        Result<int, StakingError>,
        StakingView,
    ) {
        if !self.has_id(id) {
            (Err(StakingError::InvalidId), self)
        } else if !self.is_stakable(address) {
            (Err(StakingError::NotStakable), self)
        } else if !self.id(id).resources.contains_key(address) {
            (Err(StakingError::NoPosition), self)
        } else if self.id(id).locked_at(address, now) {
            (Err(StakingError::AlreadyLocked), self)
        } else {
            match self.advance(now) {
                None => (Err(StakingError::Overflow), self),
                Some(s) => {
                    let unit = s.unit(address);
                    let record = s.id(id);
                    let staked = record.resources[address].amount_staked;
                    let bonus = product(unit.lock_payment, staked);
                    if days_after(now, unit.lock_duration) is None || !narrowable(bonus) {
                        (Err(StakingError::Overflow), self)
                    } else if bonus < 0 {
                        (Err(StakingError::InvalidAmount), self)
                    } else if bonus > s.reward_vault {
                        (Err(StakingError::InsufficientBalance), self)
                    } else {
                        (
                            Ok(bonus),
                            s.with_id(
                                id,
                                record.with_resource(
                                    address,
                                    ResourceView {
                                        amount_staked: staked,
                                        locked_until: days_after(now, unit.lock_duration),
                                    },
                                ),
                            ).with_reward_vault(s.reward_vault - bonus),
                        )
                    }
                },
            }
        }
    }

    // ----- unstake -----

    /// The amount that leaves a position of `staked` on a request for `amount`.
    pub open spec fn unstaked_amount(staked: int, amount: int) -> int {
        if amount >= staked {
            staked
        } else {
            amount
        }
    }

    /// Takes an amount out of the position of record `id` in `address`
    /// and issues a receipt for it. Rejected, in this order: where no record
    /// has the number; where the record has no position in the asset; where
    /// the amount asked for is negative; where nothing is staked; where the
    /// position is locked; where the advance fails; where the receipt's
    /// number or its redemption time leaves the range. Otherwise the position
    /// and the asset's total go down by the amount taken, custody stays as
    /// it is, and the receipt is filed under the next number of its kind.
    pub open spec fn start_unstake(
        self,
        id: u64,
        address: ResourceAddress,
        amount: int,
        stake_transfer: bool,
        now: int,
    ) -> (Result<IssuedReceipt, StakingError>, StakingView) {
        if !self.has_id(id) {
            (Err(StakingError::InvalidId), self)
        } else if !self.id(id).resources.contains_key(address) {
            (Err(StakingError::NoPosition), self)
        } else if amount < 0 {
            (Err(StakingError::InvalidAmount), self)
        } else if self.id(id).resources[address].amount_staked <= 0 {
            (Err(StakingError::NothingStaked), self)
        } else if self.id(id).locked_at(address, now) {
            (Err(StakingError::StakeLocked), self)
        } else {
            match self.advance(now) {
                None => (Err(StakingError::Overflow), self),
                Some(s) => {
                    let unit = s.unit(address);
                    let record = s.id(id);
                    let position = record.resources[address];
                    let taken = Self::unstaked_amount(position.amount_staked, amount);
                    let t = s.with_unit(
                        address,
                        unit.with_amounts(unit.amount_staked - taken, unit.vault),
                    ).with_id(
                        id,
                        record.with_resource(
                            address,
                            ResourceView {
                                amount_staked: position.amount_staked - taken,
                                locked_until: position.locked_until,
                            },
                        ),
                    );
                    if stake_transfer {
                        if s.stake_transfer_receipts.len() >= u64::MAX {
                            (Err(StakingError::Overflow), self)
                        } else {
                            (
                                Ok(
                                    IssuedReceipt::Transfer(
                                        (s.stake_transfer_receipts.len() + 1) as u64,
                                    ),
                                ),
                                StakingView {
                                    stake_transfer_receipts: s.stake_transfer_receipts.push(
                                        Some(StakeTransferReceiptView { address, amount: taken }),
                                    ),
                                    ..t
                                },
                            )
                        }
                    } else {
                        if s.unstake_receipts.len() >= u64::MAX || days_after(
                            now,
                            s.unstake_delay,
                        ) is None {
                            (Err(StakingError::Overflow), self)
                        } else {
                            (
                                Ok(IssuedReceipt::Unstake((s.unstake_receipts.len() + 1) as u64)),
                                StakingView {
                                    unstake_receipts: s.unstake_receipts.push(
                                        Some(
                                            UnstakeReceiptView {
                                                address,
                                                amount: taken,
                                                redemption_time: days_after(
                                                    now,
                                                    s.unstake_delay,
                                                ).unwrap(),
                                            },
                                        ),
                                    ),
                                    ..t
                                },
                            )
                        }
                    }
                },
            }
        }
    }

    /// Redeems unstake receipt `receipt`. Rejected, in this order: where
    /// no pending receipt has the number; before its redemption time; where
    /// the advance fails. Otherwise the receipt is used up and its amount
    /// leaves the asset's custody.
    pub open spec fn finish_unstake(self, receipt: u64, now: int) -> (
        Result<(ResourceAddress, int), StakingError>,
        StakingView,
    ) {
        if !self.has_unstake_receipt(receipt) {
            (Err(StakingError::ReceiptNotFound), self)
        } else if now < self.unstake_receipt(receipt).redemption_time {
            (Err(StakingError::RedemptionNotYetDue), self)
        } else {
            match self.advance(now) {
                None => (Err(StakingError::Overflow), self),
                Some(s) => {
                    let data = s.unstake_receipt(receipt);
                    let unit = s.unit(data.address);
                    (
                        Ok((data.address, data.amount)),
                        StakingView {
                            unstake_receipts: s.unstake_receipts.update(receipt - 1, None),
                            ..s.with_unit(
                                data.address,
                                unit.with_amounts(unit.amount_staked, unit.vault - data.amount),
                            )
                        },
                    )
                },
            }
        }
    }

    // ----- claim -----

    /// Periods that record `id` can claim in this state: those since its
    /// claim pointer, at most `max_claim_delay`.
    pub open spec fn claimable_periods(self, id: u64) -> int {
        let behind = self.current_period - self.id(id).next_period + 1;
        if behind > self.max_claim_delay {
            self.max_claim_delay
        } else {
            behind
        }
    }

    /// What record `id` is owed over its claimable periods.
    pub open spec fn owed(self, id: u64) -> Option<int> {
        accrue(
            self.stakes,
            self.id(id),
            self.current_period,
            self.claimable_periods(id),
            self.stakes.len() as int,
        )
    }

    /// Claims the rewards of record `id`. Once there is something to claim,
    /// the claim pointer moves before the rewards are summed: a failure past
    /// that point keeps the advance and the new pointer, and the periods it
    /// covered cannot be claimed again.
    pub open spec fn update_id(self, id: u64, now: int) -> (Result<int, StakingError>, StakingView) {
        if !self.has_id(id) {
            (Err(StakingError::InvalidId), self)
        } else {
            match self.advance(now) {
                None => (Err(StakingError::Overflow), self),
                Some(s) => if s.claimable_periods(id) <= 0 {
                    (Err(StakingError::NothingToClaim), self)
                } else {
                    let t = s.with_id(id, s.id(id).with_next_period(s.current_period + 1));
                    match s.owed(id) {
                        None => (Err(StakingError::Overflow), t),
                        Some(total) => if total < 0 {
                            (Err(StakingError::InvalidAmount), t)
                        } else if total > s.reward_vault {
                            (Err(StakingError::InsufficientBalance), t)
                        } else {
                            (Ok(total), t.with_reward_vault(s.reward_vault - total))
                        },
                    }
                },
            }
        }
    }

    // ----- administration: direct writes, which do not advance the clock -----

    /// Sets the period interval, which must be positive.
    pub open spec fn set_period_interval(self, new_interval: int) -> (
        Result<(), StakingError>,
        StakingView,
    ) {
        if new_interval <= 0 {
            (Err(StakingError::InvalidInterval), self)
        } else {
            (Ok(()), StakingView { period_interval: new_interval, ..self })
        }
    }

    /// Adds an amount that is not negative to the reward vault.
    pub open spec fn fill_rewards(self, amount: int) -> (Result<(), StakingError>, StakingView) {
        if amount < 0 {
            (Err(StakingError::InvalidAmount), self)
        } else if !representable(self.reward_vault + amount) {
            (Err(StakingError::Overflow), self)
        } else {
            (Ok(()), self.with_reward_vault(self.reward_vault + amount))
        }
    }

    /// Takes an amount that is not negative, and no more than it holds,
    /// out of the reward vault.
    pub open spec fn remove_rewards(self, amount: int) -> (Result<int, StakingError>, StakingView) {
        if amount < 0 {
            (Err(StakingError::InvalidAmount), self)
        } else if amount > self.reward_vault {
            (Err(StakingError::InsufficientBalance), self)
        } else {
            (Ok(amount), self.with_reward_vault(self.reward_vault - amount))
        }
    }

    /// Sets the number of periods a claim reaches back.
    pub open spec fn set_max_claim_delay(self, new_delay: int) -> StakingView {
        StakingView { max_claim_delay: new_delay, ..self }
    }

    /// Sets the unstake delay, at most the ceiling.
    pub open spec fn set_unstake_delay(self, new_delay: int) -> (
        Result<(), StakingError>,
        StakingView,
    ) {
        if new_delay > self.max_unstaking_delay {
            (Err(StakingError::DelayTooLong), self)
        } else {
            (Ok(()), StakingView { unstake_delay: new_delay, ..self })
        }
    }

    /// Sets what a period pays for the asset at `address`.
    pub open spec fn set_rewards(self, address: ResourceAddress, reward: int) -> (
        Result<(), StakingError>,
        StakingView,
    ) {
        if !self.is_stakable(address) {
            (Err(StakingError::NotStakable), self)
        } else {
            (
                Ok(()),
                self.with_unit(
                    address,
                    StakableUnitView { reward_amount: reward, ..self.unit(address) },
                ),
            )
        }
    }

    /// Registers the asset at `address`, which must be new, with nothing
    /// staked, nothing in custody and no rate recorded.
    pub open spec fn add_stakable(
        self,
        address: ResourceAddress,
        reward_amount: int,
        lock_payment: int,
        lock_duration: int,
    ) -> (Result<(), StakingError>, StakingView) {
        if self.is_stakable(address) {
            (Err(StakingError::AlreadyStakable), self)
        } else {
            (
                Ok(()),
                StakingView {
                    stakes: self.stakes.push(
                        StakableUnitView {
                            address,
                            amount_staked: 0,
                            vault: 0,
                            reward_amount,
                            lock_payment,
                            lock_duration,
                            rewards: Map::empty(),
                        },
                    ),
                    ..self
                },
            )
        }
    }

    /// Sets what a period pays and what a lock pays for the asset at `address`.
    pub open spec fn edit_stakable(
        self,
        address: ResourceAddress,
        reward_amount: int,
        lock_payment: int,
        lock_duration: int,
    ) -> (Result<(), StakingError>, StakingView) {
        if !self.is_stakable(address) {
            (Err(StakingError::NotStakable), self)
        } else {
            (
                Ok(()),
                self.with_unit(
                    address,
                    StakableUnitView {
                        reward_amount,
                        lock_payment,
                        lock_duration,
                        ..self.unit(address)
                    },
                ),
            )
        }
    }

    /// Makes the next period due at `now`.
    pub open spec fn set_next_period_to_now(self, now: int) -> StakingView {
        StakingView { next_period: now, ..self }
    }

    /// Puts the position of record `id` in `address` under a lock until
    /// `lock_until`, where a DAO controls the staking.
    pub open spec fn set_lock(self, address: ResourceAddress, lock_until: int, id: u64) -> (
        Result<(), StakingError>,
        StakingView,
    ) {
        if !self.dao_controlled {
            (Err(StakingError::NotDaoControlled), self)
        } else if !self.has_id(id) {
            (Err(StakingError::InvalidId), self)
        } else if !self.id(id).resources.contains_key(address) {
            (Err(StakingError::NoPosition), self)
        } else {
            (
                Ok(()),
                self.with_id(
                    id,
                    self.id(id).with_resource(
                        address,
                        ResourceView {
                            amount_staked: self.id(id).resources[address].amount_staked,
                            locked_until: Some(lock_until),
                        },
                    ),
                ),
            )
        }
    }
}

} // verus!
