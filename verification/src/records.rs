//! The data the ledger keeps: stakable assets, staking records and receipts.

use vstd::prelude::*;
use std::collections::HashMap;
use crate::address::ResourceAddress;
use crate::decimal::Decimal;
use crate::model::{
    DepositView, IdView, ResourceView, StakableUnitView, StakeTransferReceiptView,
    UnstakeReceiptView,
};
use crate::time::{fits_i64, Instant};

verus! {

/// What locking a position of an asset pays and how long it lasts.
#[derive(Clone, Copy, Debug, PartialEq, Eq)]
pub struct Lock {
    /// Bonus paid per staked unit.
    pub payment: Decimal,
    /// Duration of the lock in days.
    pub duration: i64,
}

/// A position: the amount staked of one asset and the end of its lock, if any.
#[derive(Clone, Copy, Debug, PartialEq, Eq)]
pub struct Resource {
    pub amount_staked: Decimal,
    pub locked_until: Option<Instant>,
}

/// The seconds of an optional instant.
pub open spec fn seconds_of(instant: Option<Instant>) -> Option<int> {
    match instant {
        Some(t) => Some(t@),
        None => None,
    }
}

impl View for Resource {
    type V = ResourceView;

    open spec fn view(&self) -> ResourceView {
        ResourceView {
            amount_staked: self.amount_staked@,
            locked_until: seconds_of(self.locked_until),
        }
    }
}

/// A staking record: one position per asset held, and the first period not
/// yet claimed.
#[derive(Clone, Debug, PartialEq, Eq)]
pub struct Id {
    pub resources: Vec<(ResourceAddress, Resource)>,
    pub next_period: i64,
}

/// Whether no address occurs twice among the entries.
pub open spec fn distinct_addresses(entries: Seq<(ResourceAddress, Resource)>) -> bool {
    forall|i: int, j: int|
        0 <= i < j < entries.len() ==> (#[trigger] entries[i]).0 != (#[trigger] entries[j]).0
}

/// The positions that the entries stand for, by address.
pub open spec fn positions(entries: Seq<(ResourceAddress, Resource)>) -> Map<
    ResourceAddress,
    ResourceView,
> {
    Map::new(
        |a: ResourceAddress| exists|i: int| 0 <= i < entries.len() && (#[trigger] entries[i]).0 == a,
        |a: ResourceAddress|
            entries[choose|i: int| 0 <= i < entries.len() && (#[trigger] entries[i]).0 == a].1@,
    )
}

/// Among distinct entries, the position at an entry's address is that entry's.
pub proof fn lemma_positions_at(entries: Seq<(ResourceAddress, Resource)>, i: int)
    requires
        distinct_addresses(entries),
        0 <= i < entries.len(),
    ensures
        positions(entries).contains_key(entries[i].0),
        positions(entries)[entries[i].0] == entries[i].1@,
{
    let a = entries[i].0;
    let j = choose|j: int| 0 <= j < entries.len() && (#[trigger] entries[j]).0 == a;
    assert(j == i);
}

/// Replacing the position of an entry replaces it in the map.
pub proof fn lemma_positions_update(
    entries: Seq<(ResourceAddress, Resource)>,
    i: int,
    resource: Resource,
)
    requires
        distinct_addresses(entries),
        0 <= i < entries.len(),
    ensures
        distinct_addresses(entries.update(i, (entries[i].0, resource))),
        positions(entries.update(i, (entries[i].0, resource))) == positions(entries).insert(
            entries[i].0,
            resource@,
        ),
{
    let after = entries.update(i, (entries[i].0, resource));
    assert forall|j: int| 0 <= j < entries.len() implies (#[trigger] after[j]).0 == entries[j].0 by {}
    assert(distinct_addresses(after));
    assert forall|a: ResourceAddress| #[trigger] positions(after).contains_key(a) implies positions(
        entries,
    ).insert(entries[i].0, resource@).contains_key(a) by {
        let j = choose|j: int| 0 <= j < after.len() && (#[trigger] after[j]).0 == a;
        assert(entries[j].0 == a);
    }
    assert forall|a: ResourceAddress| #[trigger]
        positions(entries).insert(entries[i].0, resource@).contains_key(a) implies positions(
        after,
    ).contains_key(a) && positions(after)[a] == positions(entries).insert(
        entries[i].0,
        resource@,
    )[a] by {
        if a == entries[i].0 {
            assert(after[i].0 == a);
            lemma_positions_at(after, i);
        } else {
            let j = choose|j: int| 0 <= j < entries.len() && (#[trigger] entries[j]).0 == a;
            assert(after[j].0 == a);
            lemma_positions_at(after, j);
            lemma_positions_at(entries, j);
        }
    }
    assert(positions(after) =~= positions(entries).insert(entries[i].0, resource@));
}

/// Appending a position at a new address adds it to the map.
pub proof fn lemma_positions_push(
    entries: Seq<(ResourceAddress, Resource)>,
    address: ResourceAddress,
    resource: Resource,
)
    requires
        distinct_addresses(entries),
        !positions(entries).contains_key(address),
    ensures
        distinct_addresses(entries.push((address, resource))),
        positions(entries.push((address, resource))) == positions(entries).insert(
            address,
            resource@,
        ),
{
    let after = entries.push((address, resource));
    assert forall|i: int, j: int| 0 <= i < j < after.len() implies (#[trigger] after[i]).0 != (
    #[trigger] after[j]).0 by {
        if j == entries.len() {
            assert(entries[i].0 != address);
        } else {
            assert(after[i] == entries[i] && after[j] == entries[j]);
        }
    }
    assert forall|a: ResourceAddress| #[trigger] positions(after).contains_key(a) implies positions(
        entries,
    ).insert(address, resource@).contains_key(a) by {
        let j = choose|j: int| 0 <= j < after.len() && (#[trigger] after[j]).0 == a;
        if j < entries.len() {
            assert(entries[j].0 == a);
        }
    }
    assert forall|a: ResourceAddress| #[trigger]
        positions(entries).insert(address, resource@).contains_key(a) implies positions(
        after,
    ).contains_key(a) && positions(after)[a] == positions(entries).insert(address, resource@)[a] by {
        if a == address {
            assert(after[entries.len() as int].0 == a);
            lemma_positions_at(after, entries.len() as int);
        } else {
            let j = choose|j: int| 0 <= j < entries.len() && (#[trigger] entries[j]).0 == a;
            assert(after[j].0 == a);
            lemma_positions_at(after, j);
            lemma_positions_at(entries, j);
        }
    }
    assert(positions(after) =~= positions(entries).insert(address, resource@));
}

impl View for Id {
    type V = IdView;

    open spec fn view(&self) -> IdView {
        IdView { resources: positions(self.resources@), next_period: self.next_period as int }
    }
}

impl Id {
    /// No asset has two positions.
    pub open spec fn wf(&self) -> bool {
        distinct_addresses(self.resources@)
    }

    /// Where the position in `address` first stands among the entries.
    pub fn find(&self, address: &ResourceAddress) -> (r: Option<usize>)
        ensures
            r is Some <==> self@.resources.contains_key(*address),
            r is Some ==> r.unwrap() < self.resources.len() && self.resources[r.unwrap() as int].0
                == *address,
            r is Some ==> forall|j: int|
                0 <= j < r.unwrap() ==> (#[trigger] self.resources[j]).0 != *address,
    {
        let mut i: usize = 0;
        while i < self.resources.len()
            invariant
                i <= self.resources.len(),
                forall|j: int| 0 <= j < i ==> (#[trigger] self.resources[j]).0 != *address,
            decreases self.resources.len() - i,
        {
            if self.resources[i].0.same_as(address) {
                return Some(i);
            }
            i = i + 1;
        }
        None
    }

    /// The position in `address`, if the record has one.
    pub fn resource(&self, address: &ResourceAddress) -> (r: Option<Resource>)
        requires
            self.wf(),
        ensures
            r is Some <==> self@.resources.contains_key(*address),
            r is Some ==> r.unwrap()@ == self@.resources[*address],
    {
        match self.find(address) {
            Some(i) => {
                proof {
                    lemma_positions_at(self.resources@, i as int);
                }
                Some(self.resources[i].1)
            },
            None => None,
        }
    }
}

/// A stakable asset: what is staked of it, what is held in custody, what a
/// period pays, what a lock pays, and the rate recorded for each closed period.
#[derive(Debug)]
pub struct StakableUnit {
    pub address: ResourceAddress,
    pub amount_staked: Decimal,
    /// Balance of the asset's custody vault.
    pub vault: Decimal,
    pub reward_amount: Decimal,
    pub lock: Lock,
    pub rewards: HashMap<i64, Decimal>,
}

/// Where the asset at `address` first stands among the units.
pub fn find_unit(stakes: &Vec<StakableUnit>, address: &ResourceAddress) -> (r: Option<usize>)
    ensures
        r is Some <==> exists|i: int|
            0 <= i < stakes@.len() && (#[trigger] stakes@[i]).address == *address,
        r is Some ==> r.unwrap() < stakes@.len() && stakes@[r.unwrap() as int].address == *address,
        r is Some ==> forall|j: int|
            0 <= j < r.unwrap() ==> (#[trigger] stakes@[j]).address != *address,
{
    let mut i: usize = 0;
    while i < stakes.len()
        invariant
            i <= stakes@.len(),
            forall|j: int| 0 <= j < i ==> (#[trigger] stakes@[j]).address != *address,
        decreases stakes@.len() - i,
    {
        if stakes[i].address.same_as(address) {
            return Some(i);
        }
        i = i + 1;
    }
    None
}

/// The recorded rates by period, as numbers.
pub open spec fn rates(rewards: Map<i64, Decimal>) -> Map<int, int> {
    Map::new(
        |p: int| fits_i64(p) && rewards.contains_key(p as i64),
        |p: int| rewards[p as i64]@,
    )
}

impl View for StakableUnit {
    type V = StakableUnitView;

    open spec fn view(&self) -> StakableUnitView {
        StakableUnitView {
            address: self.address,
            amount_staked: self.amount_staked@,
            vault: self.vault@,
            reward_amount: self.reward_amount@,
            lock_payment: self.lock.payment@,
            lock_duration: self.lock.duration as int,
            rewards: rates(self.rewards@),
        }
    }
}

/// A pending withdrawal, redeemable from `redemption_time` on.
#[derive(Clone, Copy, Debug, PartialEq, Eq)]
pub struct UnstakeReceipt {
    pub address: ResourceAddress,
    pub amount: Decimal,
    pub redemption_time: Instant,
}

impl View for UnstakeReceipt {
    type V = UnstakeReceiptView;

    open spec fn view(&self) -> UnstakeReceiptView {
        UnstakeReceiptView {
            address: self.address,
            amount: self.amount@,
            redemption_time: self.redemption_time@,
        }
    }
}

/// A position detached from its record, which any record may stake again.
#[derive(Clone, Copy, Debug, PartialEq, Eq)]
pub struct StakeTransferReceipt {
    pub address: ResourceAddress,
    pub amount: Decimal,
}

impl View for StakeTransferReceipt {
    type V = StakeTransferReceiptView;

    open spec fn view(&self) -> StakeTransferReceiptView {
        StakeTransferReceiptView { address: self.address, amount: self.amount@ }
    }
}

/// What is handed over when staking.
#[derive(Clone, Copy, Debug, PartialEq, Eq)]
pub enum Deposit {
    /// An amount of the asset at the given address.
    Tokens(ResourceAddress, Decimal),
    /// The transfer receipt with the given number.
    TransferReceipt(u64),
}

impl View for Deposit {
    type V = DepositView;

    open spec fn view(&self) -> DepositView {
        match self {
            Deposit::Tokens(address, amount) => DepositView::Tokens(*address, amount@),
            Deposit::TransferReceipt(receipt) => DepositView::TransferReceipt(*receipt),
        }
    }
}

} // verus!
