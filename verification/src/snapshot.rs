//! The ledger's state as plain data, for keeping it between calls, and the
//! test that tells whether such data is the state of a well-formed ledger.

use vstd::prelude::*;
use std::collections::HashMap;
use crate::address::ResourceAddress;
use crate::decimal::{lemma_attos_in_range, lemma_attos_injective, representable, Decimal};
use crate::invariants::{lemma_staked_sum_nonnegative, lemma_total_nonnegative};
use crate::model::{staked_sum, total, transfers_of, unstakes_of, IdView, StakingView};
use crate::records::{
    distinct_addresses, find_unit, lemma_positions_at, Id, StakableUnit, StakeTransferReceipt,
    UnstakeReceipt,
};
use crate::staking::{stake_transfer_receipt_view, unstake_receipt_view};
use crate::time::Instant;

verus! {

/// Everything a ledger holds, field by field.
#[derive(Debug)]
pub struct Snapshot {
    pub period_interval: i64,
    pub next_period: Instant,
    pub current_period: i64,
    pub max_claim_delay: i64,
    pub max_unstaking_delay: i64,
    pub unstake_delay: i64,
    pub reward_vault: Decimal,
    pub stakes: Vec<StakableUnit>,
    pub ids: Vec<Id>,
    pub unstake_receipts: Vec<Option<UnstakeReceipt>>,
    pub stake_transfer_receipts: Vec<Option<StakeTransferReceipt>>,
    pub dao_controlled: bool,
}

impl View for Snapshot {
    type V = StakingView;

    open spec fn view(&self) -> StakingView {
        StakingView {
            period_interval: self.period_interval as int,
            next_period: self.next_period@,
            current_period: self.current_period as int,
            max_claim_delay: self.max_claim_delay as int,
            max_unstaking_delay: self.max_unstaking_delay as int,
            unstake_delay: self.unstake_delay as int,
            reward_vault: self.reward_vault@,
            stakes: Seq::new(self.stakes@.len(), |i: int| self.stakes@[i]@),
            ids: Seq::new(self.ids@.len(), |k: int| self.ids@[k]@),
            unstake_receipts: Seq::new(
                self.unstake_receipts@.len(),
                |k: int| unstake_receipt_view(self.unstake_receipts@[k]),
            ),
            stake_transfer_receipts: Seq::new(
                self.stake_transfer_receipts@.len(),
                |k: int| stake_transfer_receipt_view(self.stake_transfer_receipts@[k]),
            ),
            dao_controlled: self.dao_controlled,
        }
    }
}

/// The sum over the first `k` records grows by what record `k` holds.
proof fn lemma_staked_sum_take(ids: Seq<IdView>, k: int, address: ResourceAddress)
    requires
        0 <= k < ids.len(),
    ensures
        staked_sum(ids.take(k + 1), address) == staked_sum(ids.take(k), address) + ids[k].staked(
            address,
        ),
{
    assert(ids.take(k + 1).drop_last() =~= ids.take(k));
}

/// Where no record holds a negative amount, the first `k` records hold no
/// more than all of them.
proof fn lemma_staked_sum_prefix(ids: Seq<IdView>, k: int, address: ResourceAddress)
    requires
        0 <= k <= ids.len(),
        forall|j: int| 0 <= j < ids.len() ==> (#[trigger] ids[j]).staked(address) >= 0,
    ensures
        staked_sum(ids.take(k), address) <= staked_sum(ids, address),
    decreases ids.len() - k,
{
    if k < ids.len() {
        lemma_staked_sum_take(ids, k, address);
        lemma_staked_sum_prefix(ids, k + 1, address);
    } else {
        assert(ids.take(k) =~= ids);
    }
}

/// The sum over the first `k` amounts grows by amount `k`.
proof fn lemma_total_take(amounts: Seq<int>, k: int)
    requires
        0 <= k < amounts.len(),
    ensures
        total(amounts.take(k + 1)) == total(amounts.take(k)) + amounts[k],
{
    assert(amounts.take(k + 1).drop_last() =~= amounts.take(k));
}

/// Where no amount is negative, the first `k` sum to no more than all.
proof fn lemma_total_prefix(amounts: Seq<int>, k: int)
    requires
        0 <= k <= amounts.len(),
        forall|j: int| 0 <= j < amounts.len() ==> amounts[j] >= 0,
    ensures
        total(amounts.take(k)) <= total(amounts),
    decreases amounts.len() - k,
{
    if k < amounts.len() {
        lemma_total_take(amounts, k);
        lemma_total_prefix(amounts, k + 1);
    } else {
        assert(amounts.take(k) =~= amounts);
    }
}

/// The keys among `0..p` for which a rate is recorded.
pub open spec fn recorded_below(rewards: Map<i64, Decimal>, p: int) -> Set<i64> {
    rewards.dom().filter(|q: i64| 0 <= q < p)
}

/// Whether every rate is recorded for a period in `0..current`.
fn rates_closed(rewards: &HashMap<i64, Decimal>, current: i64) -> (r: bool)
    requires
        current >= 0,
    ensures
        r == forall|p: i64| #[trigger] rewards@.contains_key(p) ==> 0 <= p < current,
{
    broadcast use vstd::std_specs::hash::group_hash_axioms;

    let mut found: usize = 0;
    let mut p: i64 = 0;
    proof {
        assert(recorded_below(rewards@, 0) =~= Set::<i64>::empty());
        rewards@.dom().lemma_len_filter(|q: i64| 0 <= q < 0);
    }
    while p < current
        invariant
            0 <= p <= current,
            found == recorded_below(rewards@, p as int).len(),
            found <= rewards@.dom().len(),
            rewards@.dom().finite(),
            rewards@.dom().len() == rewards.len(),
        decreases current - p,
    {
        proof {
            let before = recorded_below(rewards@, p as int);
            let after = recorded_below(rewards@, p + 1);
            rewards@.dom().lemma_len_filter(|q: i64| 0 <= q < p as int);
            rewards@.dom().lemma_len_filter(|q: i64| 0 <= q < p + 1);
            vstd::set_lib::lemma_set_subset_finite(rewards@.dom(), before);
            if rewards@.contains_key(p) {
                assert(after =~= before.insert(p));
            } else {
                assert(after =~= before);
            }
        }
        if rewards.contains_key(&p) {
            found = found + 1;
        }
        p = p + 1;
    }
    proof {
        let inside = recorded_below(rewards@, current as int);
        vstd::set_lib::lemma_set_subset_finite(rewards@.dom(), inside);
        if found == rewards.len() {
            vstd::set_lib::lemma_subset_equality(inside, rewards@.dom());
            assert forall|q: i64| #[trigger] rewards@.contains_key(q) implies 0 <= q < current by {
                assert(inside.contains(q));
            }
        } else {
            if forall|q: i64| #[trigger] rewards@.contains_key(q) ==> 0 <= q < current {
                assert(inside =~= rewards@.dom());
            }
        }
    }
    found == rewards.len()
}

impl Snapshot {
    /// The data is the state of a well-formed ledger, and no record holds
    /// two positions in one asset.
    pub open spec fn wf(&self) -> bool {
        &&& self@.wf()
        &&& forall|k: int| 0 <= k < self.ids@.len() ==> (#[trigger] self.ids@[k]).wf()
    }

    /// The settings are in range.
    pub open spec fn settings_in_range(&self) -> bool {
        &&& self@.period_interval > 0
        &&& 0 <= self@.current_period < i64::MAX
        &&& self@.unstake_delay <= self@.max_unstaking_delay
        &&& self@.reward_vault >= 0
    }

    /// The records are sound, and none holds two positions in one asset.
    pub open spec fn records_sound(&self) -> bool {
        &&& self@.ids_sound()
        &&& forall|k: int| 0 <= k < self.ids@.len() ==> (#[trigger] self.ids@[k]).wf()
    }

    fn check_settings(&self) -> (r: bool)
        ensures
            r == self.settings_in_range(),
    {
        self.period_interval > 0 && self.current_period >= 0 && self.current_period < i64::MAX
            && self.unstake_delay <= self.max_unstaking_delay && !self.reward_vault.is_negative()
    }

    fn is_stakable(&self, address: &ResourceAddress) -> (r: bool)
        ensures
            r == self@.is_stakable(*address),
    {
        let found = find_unit(&self.stakes, address);
        proof {
            if found is Some {
                assert(self@.stakes[found.unwrap() as int].address == *address);
            }
            if self@.is_stakable(*address) {
                let i = self@.index_of(*address);
                assert(self.stakes@[i].address == *address);
            }
        }
        found.is_some()
    }

    fn check_distinct_stakes(&self) -> (r: bool)
        ensures
            r == self@.distinct_stakes(),
    {
        let mut j: usize = 0;
        while j < self.stakes.len()
            invariant
                j <= self.stakes@.len(),
                forall|a: int, b: int|
                    0 <= a < b < j ==> (#[trigger] self.stakes@[a]).address != (
                    #[trigger] self.stakes@[b]).address,
            decreases self.stakes@.len() - j,
        {
            let mut i: usize = 0;
            while i < j
                invariant
                    i <= j < self.stakes@.len(),
                    forall|a: int|
                        0 <= a < i ==> (#[trigger] self.stakes@[a]).address
                            != self.stakes@[j as int].address,
                decreases j - i,
            {
                if self.stakes[i].address.same_as(&self.stakes[j].address) {
                    assert(self@.stakes[i as int].address == self@.stakes[j as int].address);
                    return false;
                }
                i = i + 1;
            }
            j = j + 1;
        }
        proof {
            assert forall|a: int, b: int| 0 <= a < b < self@.stakes.len() implies (
            #[trigger] self@.stakes[a]).address != (#[trigger] self@.stakes[b]).address by {
                assert(self.stakes@[a].address != self.stakes@[b].address);
            }
        }
        true
    }

    fn check_stakes(&self) -> (r: bool)
        requires
            self.settings_in_range(),
        ensures
            r == self@.stakes_sound(),
    {
        let mut i: usize = 0;
        while i < self.stakes.len()
            invariant
                i <= self.stakes@.len(),
                self.settings_in_range(),
                forall|j: int|
                    0 <= j < i ==> {
                        &&& (#[trigger] self@.stakes[j]).vault >= 0
                        &&& forall|p: int| #[trigger]
                            self@.stakes[j].rewards.contains_key(p) ==> 0 <= p
                                < self@.current_period
                    },
            decreases self.stakes@.len() - i,
        {
            let unit = &self.stakes[i];
            if unit.vault.is_negative() {
                assert(self@.stakes[i as int].vault < 0);
                return false;
            }
            if !rates_closed(&unit.rewards, self.current_period) {
                proof {
                    let q = choose|q: i64| #[trigger]
                        unit.rewards@.contains_key(q) && !(0 <= q < self.current_period);
                    assert(self@.stakes[i as int].rewards.contains_key(q as int));
                }
                return false;
            }
            proof {
                assert forall|p: int| #[trigger]
                    self@.stakes[i as int].rewards.contains_key(p) implies 0 <= p
                    < self@.current_period by {
                    assert(unit.rewards@.contains_key(p as i64));
                }
            }
            i = i + 1;
        }
        true
    }

    /// Whether record `k` is sound and holds no two positions in one asset.
    fn check_record(&self, k: usize) -> (r: bool)
        requires
            k < self.ids@.len(),
            self.settings_in_range(),
        ensures
            r == {
                &&& self.ids@[k as int].wf()
                &&& 1 <= self@.ids[k as int].next_period <= self@.current_period + 1
                &&& forall|a: ResourceAddress| #[trigger]
                    self@.ids[k as int].resources.contains_key(a) ==> self@.is_stakable(a)
                        && self@.ids[k as int].resources[a].amount_staked >= 0
            },
    {
        let id = &self.ids[k];
        if id.next_period < 1 || id.next_period - 1 > self.current_period {
            return false;
        }
        let ghost entries = id.resources@;
        let mut j: usize = 0;
        while j < id.resources.len()
            invariant
                j <= entries.len(),
                k < self.ids@.len(),
                *id == self.ids@[k as int],
                entries == id.resources@,
                forall|a: int, b: int|
                    0 <= a < b < j ==> (#[trigger] entries[a]).0 != (#[trigger] entries[b]).0,
                forall|b: int|
                    0 <= b < j ==> self@.is_stakable((#[trigger] entries[b]).0)
                        && entries[b].1.amount_staked@ >= 0,
            decreases entries.len() - j,
        {
            let address = id.resources[j].0;
            let resource = id.resources[j].1;
            let mut i: usize = 0;
            while i < j
                invariant
                    i <= j < entries.len(),
                    k < self.ids@.len(),
                    *id == self.ids@[k as int],
                    entries == id.resources@,
                    address == entries[j as int].0,
                    forall|a: int| 0 <= a < i ==> (#[trigger] entries[a]).0 != address,
                decreases j - i,
            {
                if id.resources[i].0.same_as(&address) {
                    assert(entries[i as int].0 == entries[j as int].0);
                    return false;
                }
                i = i + 1;
            }
            assert(self@.ids[k as int].resources.contains_key(address));
            if !self.is_stakable(&address) {
                return false;
            }
            if resource.amount_staked.is_negative() {
                proof {
                    if distinct_addresses(entries) {
                        lemma_positions_at(entries, j as int);
                    }
                }
                return false;
            }
            j = j + 1;
        }
        proof {
            assert(distinct_addresses(entries));
            assert forall|a: ResourceAddress| #[trigger]
                self@.ids[k as int].resources.contains_key(a) implies self@.is_stakable(a)
                && self@.ids[k as int].resources[a].amount_staked >= 0 by {
                let b = choose|b: int| 0 <= b < entries.len() && (#[trigger] entries[b]).0 == a;
                lemma_positions_at(entries, b);
            }
        }
        true
    }

    fn check_records(&self) -> (r: bool)
        requires
            self.settings_in_range(),
        ensures
            r == self.records_sound(),
    {
        let mut k: usize = 0;
        while k < self.ids.len()
            invariant
                k <= self.ids@.len(),
                self.settings_in_range(),
                forall|j: int|
                    0 <= j < k ==> {
                        &&& (#[trigger] self.ids@[j]).wf()
                        &&& 1 <= self@.ids[j].next_period <= self@.current_period + 1
                        &&& forall|a: ResourceAddress| #[trigger]
                            self@.ids[j].resources.contains_key(a) ==> self@.is_stakable(a)
                                && self@.ids[j].resources[a].amount_staked >= 0
                    },
            decreases self.ids@.len() - k,
        {
            if !self.check_record(k) {
                assert(!(self.ids@[k as int].wf() && {
                    &&& 1 <= self@.ids[k as int].next_period <= self@.current_period + 1
                    &&& forall|a: ResourceAddress| #[trigger]
                        self@.ids[k as int].resources.contains_key(a) ==> self@.is_stakable(a)
                            && self@.ids[k as int].resources[a].amount_staked >= 0
                }));
                return false;
            }
            k = k + 1;
        }
        proof {
            assert forall|j: int| 0 <= j < self@.ids.len() implies {
                &&& 1 <= (#[trigger] self@.ids[j]).next_period <= self@.current_period + 1
                &&& forall|a: ResourceAddress| #[trigger]
                    self@.ids[j].resources.contains_key(a) ==> self@.is_stakable(a)
                        && self@.ids[j].resources[a].amount_staked >= 0
            } by {
                assert(self.ids@[j].wf());
            }
        }
        true
    }

    fn check_receipts(&self) -> (r: bool)
        ensures
            r == self@.receipts_sound(),
    {
        let mut n: usize = 0;
        while n < self.unstake_receipts.len()
            invariant
                n <= self.unstake_receipts@.len(),
                forall|j: int|
                    0 <= j < n && (#[trigger] self@.unstake_receipts[j]) is Some
                        ==> self@.is_stakable(self@.unstake_receipts[j].unwrap().address)
                        && self@.unstake_receipts[j].unwrap().amount >= 0,
            decreases self.unstake_receipts@.len() - n,
        {
            if let Some(receipt) = self.unstake_receipts[n] {
                assert(self@.unstake_receipts[n as int] == Some(receipt@));
                if !self.is_stakable(&receipt.address) || receipt.amount.is_negative() {
                    return false;
                }
            }
            n = n + 1;
        }
        let mut m: usize = 0;
        while m < self.stake_transfer_receipts.len()
            invariant
                m <= self.stake_transfer_receipts@.len(),
                forall|j: int|
                    0 <= j < self@.unstake_receipts.len() && (
                    #[trigger] self@.unstake_receipts[j]) is Some ==> self@.is_stakable(
                        self@.unstake_receipts[j].unwrap().address,
                    ) && self@.unstake_receipts[j].unwrap().amount >= 0,
                forall|j: int|
                    0 <= j < m && (#[trigger] self@.stake_transfer_receipts[j]) is Some
                        ==> self@.is_stakable(self@.stake_transfer_receipts[j].unwrap().address)
                        && self@.stake_transfer_receipts[j].unwrap().amount >= 0,
            decreases self.stake_transfer_receipts@.len() - m,
        {
            if let Some(receipt) = self.stake_transfer_receipts[m] {
                assert(self@.stake_transfer_receipts[m as int] == Some(receipt@));
                if !self.is_stakable(&receipt.address) || receipt.amount.is_negative() {
                    return false;
                }
            }
            m = m + 1;
        }
        true
    }

    /// What the records hold of `address` in all; `None` where that is
    /// beyond the range of an amount.
    fn staked_total(&self, address: &ResourceAddress) -> (r: Option<Decimal>)
        requires
            self.records_sound(),
        ensures
            r is Some <==> representable(staked_sum(self@.ids, *address)),
            r is Some ==> r.unwrap()@ == staked_sum(self@.ids, *address),
    {
        let mut sum = Decimal::zero();
        let mut k: usize = 0;
        proof {
            assert forall|j: int| 0 <= j < self@.ids.len() implies (#[trigger] self@.ids[j]).staked(
                *address,
            ) >= 0 by {
                if self@.ids[j].resources.contains_key(*address) {
                    assert(self@.ids[j].resources[*address].amount_staked >= 0);
                }
            }
            lemma_staked_sum_nonnegative(self@.ids, *address);
        }
        while k < self.ids.len()
            invariant
                k <= self.ids@.len(),
                self.records_sound(),
                sum@ == staked_sum(self@.ids.take(k as int), *address),
                forall|j: int|
                    0 <= j < self@.ids.len() ==> (#[trigger] self@.ids[j]).staked(*address) >= 0,
                0 <= staked_sum(self@.ids, *address),
            decreases self.ids@.len() - k,
        {
            assert(self.ids@[k as int].wf());
            let held = match self.ids[k].resource(address) {
                Some(position) => position.amount_staked,
                None => Decimal::zero(),
            };
            proof {
                assert(held@ == self@.ids[k as int].staked(*address));
                lemma_staked_sum_take(self@.ids, k as int, *address);
                lemma_staked_sum_prefix(self@.ids, k + 1, *address);
                lemma_staked_sum_nonnegative(self@.ids.take(k as int), *address);
            }
            sum = match sum.checked_add(held) {
                None => {
                    return None;
                },
                Some(more) => more,
            };
            k = k + 1;
        }
        assert(self@.ids.take(k as int) =~= self@.ids);
        Some(sum)
    }

    fn check_conserved(&self) -> (r: bool)
        requires
            self.records_sound(),
        ensures
            r == self@.conserved(),
    {
        let mut i: usize = 0;
        while i < self.stakes.len()
            invariant
                i <= self.stakes@.len(),
                self.records_sound(),
                forall|j: int|
                    0 <= j < i ==> (#[trigger] self@.stakes[j]).amount_staked == staked_sum(
                        self@.ids,
                        self@.stakes[j].address,
                    ),
            decreases self.stakes@.len() - i,
        {
            let unit = &self.stakes[i];
            assert(unit@ == self@.stakes[i as int]);
            match self.staked_total(&unit.address) {
                None => {
                    return false;
                },
                Some(sum) => {
                    if sum != unit.amount_staked {
                        proof {
                            if sum@ == unit.amount_staked@ {
                                lemma_attos_injective(sum, unit.amount_staked);
                            }
                        }
                        return false;
                    }
                },
            }
            i = i + 1;
        }
        true
    }

    /// What the pending receipts claim of `address` in all; `None` where
    /// that is beyond the range of an amount.
    fn pending_total(&self, address: &ResourceAddress) -> (r: Option<Decimal>)
        requires
            self@.receipts_sound(),
        ensures
            r is Some <==> representable(self@.pending(*address)),
            r is Some ==> r.unwrap()@ == self@.pending(*address),
            self@.pending(*address) >= 0,
    {
        let ghost unstakes = unstakes_of(self@.unstake_receipts, *address);
        let ghost transfers = transfers_of(self@.stake_transfer_receipts, *address);
        proof {
            assert forall|j: int| 0 <= j < unstakes.len() implies unstakes[j] >= 0 by {
                if self@.unstake_receipts[j] is Some {
                    assert(self@.unstake_receipts[j].unwrap().amount >= 0);
                }
            }
            assert forall|j: int| 0 <= j < transfers.len() implies transfers[j] >= 0 by {
                if self@.stake_transfer_receipts[j] is Some {
                    assert(self@.stake_transfer_receipts[j].unwrap().amount >= 0);
                }
            }
            lemma_total_nonnegative(unstakes);
            lemma_total_nonnegative(transfers);
        }
        let mut sum = Decimal::zero();
        let mut n: usize = 0;
        while n < self.unstake_receipts.len()
            invariant
                n <= self.unstake_receipts@.len(),
                unstakes == unstakes_of(self@.unstake_receipts, *address),
                transfers == transfers_of(self@.stake_transfer_receipts, *address),
                forall|j: int| 0 <= j < unstakes.len() ==> unstakes[j] >= 0,
                0 <= total(transfers),
                sum@ == total(unstakes.take(n as int)),
            decreases self.unstake_receipts@.len() - n,
        {
            let claimed = match self.unstake_receipts[n] {
                Some(receipt) => if receipt.address.same_as(address) {
                    receipt.amount
                } else {
                    Decimal::zero()
                },
                None => Decimal::zero(),
            };
            proof {
                assert(self@.unstake_receipts[n as int] == unstake_receipt_view(
                    self.unstake_receipts@[n as int],
                ));
                assert(claimed@ == unstakes[n as int]);
                lemma_total_take(unstakes, n as int);
                lemma_total_prefix(unstakes, n + 1);
                lemma_total_nonnegative(unstakes.take(n as int));
            }
            sum = match sum.checked_add(claimed) {
                None => {
                    return None;
                },
                Some(more) => more,
            };
            n = n + 1;
        }
        assert(unstakes.take(n as int) =~= unstakes);
        let mut m: usize = 0;
        while m < self.stake_transfer_receipts.len()
            invariant
                m <= self.stake_transfer_receipts@.len(),
                unstakes == unstakes_of(self@.unstake_receipts, *address),
                transfers == transfers_of(self@.stake_transfer_receipts, *address),
                forall|j: int| 0 <= j < transfers.len() ==> transfers[j] >= 0,
                0 <= total(unstakes),
                sum@ == total(unstakes) + total(transfers.take(m as int)),
            decreases self.stake_transfer_receipts@.len() - m,
        {
            let claimed = match self.stake_transfer_receipts[m] {
                Some(receipt) => if receipt.address.same_as(address) {
                    receipt.amount
                } else {
                    Decimal::zero()
                },
                None => Decimal::zero(),
            };
            proof {
                assert(self@.stake_transfer_receipts[m as int] == stake_transfer_receipt_view(
                    self.stake_transfer_receipts@[m as int],
                ));
                assert(claimed@ == transfers[m as int]);
                lemma_total_take(transfers, m as int);
                lemma_total_prefix(transfers, m + 1);
                lemma_total_nonnegative(transfers.take(m as int));
            }
            sum = match sum.checked_add(claimed) {
                None => {
                    return None;
                },
                Some(more) => more,
            };
            m = m + 1;
        }
        assert(transfers.take(m as int) =~= transfers);
        Some(sum)
    }

    fn check_solvent(&self) -> (r: bool)
        requires
            self@.receipts_sound(),
            self.records_sound(),
            self@.conserved(),
        ensures
            r == self@.solvent(),
    {
        let mut i: usize = 0;
        while i < self.stakes.len()
            invariant
                i <= self.stakes@.len(),
                self@.receipts_sound(),
                self.records_sound(),
                self@.conserved(),
                forall|j: int|
                    0 <= j < i ==> (#[trigger] self@.stakes[j]).vault
                        == self@.stakes[j].amount_staked + self@.pending(self@.stakes[j].address),
            decreases self.stakes@.len() - i,
        {
            let unit = &self.stakes[i];
            assert(unit@ == self@.stakes[i as int]);
            proof {
                assert forall|j: int| 0 <= j < self@.ids.len() implies (
                #[trigger] self@.ids[j]).staked(unit.address) >= 0 by {
                    if self@.ids[j].resources.contains_key(unit.address) {
                        assert(self@.ids[j].resources[unit.address].amount_staked >= 0);
                    }
                }
                lemma_staked_sum_nonnegative(self@.ids, unit.address);
            }
            let pending = match self.pending_total(&unit.address) {
                None => {
                    proof {
                        lemma_attos_in_range(unit.vault);
                    }
                    return false;
                },
                Some(pending) => pending,
            };
            match unit.vault.checked_sub(pending) {
                None => {
                    proof {
                        lemma_attos_in_range(unit.amount_staked);
                    }
                    return false;
                },
                Some(rest) => {
                    if rest != unit.amount_staked {
                        proof {
                            if rest@ == unit.amount_staked@ {
                                lemma_attos_injective(rest, unit.amount_staked);
                            }
                        }
                        return false;
                    }
                },
            }
            i = i + 1;
        }
        true
    }

    /// Whether the data is the state of a well-formed ledger.
    pub fn is_wf(&self) -> (r: bool)
        ensures
            r == self.wf(),
    {
        self.check_settings() && self.check_distinct_stakes() && self.check_stakes()
            && self.check_records() && self.check_receipts() && self.check_conserved()
            && self.check_solvent()
    }
}

} // verus!
