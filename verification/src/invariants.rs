//! Every operation takes a well-formed ledger to a well-formed ledger.

use vstd::prelude::*;
use crate::address::ResourceAddress;
use crate::model::{
    accrue, staked_sum, total, transfers_of, unstakes_of, DepositView, IdView, StakableUnitView,
    StakeTransferReceiptView, StakingView, UnstakeReceiptView,
};

verus! {

/// Among distinct assets, an asset's address leads back to its index.
pub proof fn lemma_index_of(s: StakingView, i: int)
    requires
        s.distinct_stakes(),
        0 <= i < s.stakes.len(),
    ensures
        s.is_stakable(s.stakes[i].address),
        s.index_of(s.stakes[i].address) == i,
        s.unit(s.stakes[i].address) == s.stakes[i],
{
    let a = s.stakes[i].address;
    let j = s.index_of(a);
    assert(0 <= j < s.stakes.len() && s.stakes[j].address == a);
    if j < i {
        assert(s.stakes[j].address != s.stakes[i].address);
    } else if i < j {
        assert(s.stakes[i].address != s.stakes[j].address);
    }
}

/// A stakable address has an index, and the asset there has that address.
pub proof fn lemma_unit_of(s: StakingView, address: ResourceAddress)
    requires
        s.is_stakable(address),
    ensures
        0 <= s.index_of(address) < s.stakes.len(),
        s.unit(address).address == address,
{
}

/// Two registries with the same addresses in the same places agree on what
/// is stakable and where.
pub proof fn lemma_same_addresses(s: StakingView, t: StakingView)
    requires
        s.distinct_stakes(),
        s.stakes.len() == t.stakes.len(),
        forall|i: int| 0 <= i < s.stakes.len() ==> (#[trigger] t.stakes[i]).address == s.stakes[i].address,
    ensures
        t.distinct_stakes(),
        forall|a: ResourceAddress| s.is_stakable(a) == t.is_stakable(a),
        forall|a: ResourceAddress| s.is_stakable(a) ==> s.index_of(a) == t.index_of(a),
{
    assert forall|i: int, j: int| 0 <= i < j < t.stakes.len() implies (#[trigger] t.stakes[i]).address
        != (#[trigger] t.stakes[j]).address by {
        assert(s.stakes[i].address != s.stakes[j].address);
    }
    assert forall|a: ResourceAddress| s.is_stakable(a) == t.is_stakable(a) by {
        if s.is_stakable(a) {
            let i = s.index_of(a);
            assert(t.stakes[i].address == a);
        }
        if t.is_stakable(a) {
            let i = t.index_of(a);
            assert(s.stakes[i].address == a);
        }
    }
    assert forall|a: ResourceAddress| s.is_stakable(a) implies s.index_of(a) == t.index_of(a) by {
        let i = s.index_of(a);
        assert(t.stakes[i].address == a);
        lemma_index_of(t, i);
    }
}

/// Appending a record adds what it holds to the sum.
pub proof fn lemma_staked_sum_push(ids: Seq<IdView>, record: IdView, address: ResourceAddress)
    ensures
        staked_sum(ids.push(record), address) == staked_sum(ids, address) + record.staked(address),
{
    assert(ids.push(record).drop_last() =~= ids);
}

/// Replacing a record changes the sum by the difference of what the two hold.
pub proof fn lemma_staked_sum_update(
    ids: Seq<IdView>,
    k: int,
    record: IdView,
    address: ResourceAddress,
)
    requires
        0 <= k < ids.len(),
    ensures
        staked_sum(ids.update(k, record), address) == staked_sum(ids, address) - ids[k].staked(
            address,
        ) + record.staked(address),
    decreases ids.len(),
{
    let after = ids.update(k, record);
    if k == ids.len() - 1 {
        assert(after.drop_last() =~= ids.drop_last());
    } else {
        assert(after.drop_last() =~= ids.drop_last().update(k, record));
        lemma_staked_sum_update(ids.drop_last(), k, record, address);
    }
}

/// Where no record holds a negative amount, no record holds more than the sum.
pub proof fn lemma_staked_sum_bounds(ids: Seq<IdView>, k: int, address: ResourceAddress)
    requires
        0 <= k < ids.len(),
        forall|j: int| 0 <= j < ids.len() ==> (#[trigger] ids[j]).staked(address) >= 0,
    ensures
        0 <= ids[k].staked(address) <= staked_sum(ids, address),
    decreases ids.len(),
{
    lemma_staked_sum_nonnegative(ids.drop_last(), address);
    if k < ids.len() - 1 {
        lemma_staked_sum_bounds(ids.drop_last(), k, address);
    }
}

/// Where no record holds a negative amount, the sum is not negative.
pub proof fn lemma_staked_sum_nonnegative(ids: Seq<IdView>, address: ResourceAddress)
    requires
        forall|j: int| 0 <= j < ids.len() ==> (#[trigger] ids[j]).staked(address) >= 0,
    ensures
        0 <= staked_sum(ids, address),
    decreases ids.len(),
{
    if ids.len() > 0 {
        lemma_staked_sum_nonnegative(ids.drop_last(), address);
    }
}

/// In a well-formed ledger a position is at most the asset's total.
pub proof fn lemma_position_bounds(s: StakingView, id: u64, address: ResourceAddress)
    requires
        s.wf(),
        s.has_id(id),
        s.is_stakable(address),
    ensures
        0 <= s.id(id).staked(address) <= s.unit(address).amount_staked,
{
    assert forall|j: int| 0 <= j < s.ids.len() implies (#[trigger] s.ids[j]).staked(address)
        >= 0 by {
        if s.ids[j].resources.contains_key(address) {
            assert(s.ids[j].resources[address].amount_staked >= 0);
        }
    }
    lemma_staked_sum_bounds(s.ids, id - 1, address);
    lemma_unit_of(s, address);
    assert(s.stakes[s.index_of(address)].amount_staked == staked_sum(s.ids, address));
}

/// Appending an amount adds it to the sum.
pub proof fn lemma_total_push(amounts: Seq<int>, amount: int)
    ensures
        total(amounts.push(amount)) == total(amounts) + amount,
{
    assert(amounts.push(amount).drop_last() =~= amounts);
}

/// Replacing an amount changes the sum by the difference.
pub proof fn lemma_total_update(amounts: Seq<int>, k: int, amount: int)
    requires
        0 <= k < amounts.len(),
    ensures
        total(amounts.update(k, amount)) == total(amounts) - amounts[k] + amount,
    decreases amounts.len(),
{
    let after = amounts.update(k, amount);
    if k == amounts.len() - 1 {
        assert(after.drop_last() =~= amounts.drop_last());
    } else {
        assert(after.drop_last() =~= amounts.drop_last().update(k, amount));
        lemma_total_update(amounts.drop_last(), k, amount);
    }
}

/// Amounts that are all zero sum to zero.
pub proof fn lemma_total_zero(amounts: Seq<int>)
    requires
        forall|n: int| 0 <= n < amounts.len() ==> amounts[n] == 0,
    ensures
        total(amounts) == 0,
    decreases amounts.len(),
{
    if amounts.len() > 0 {
        lemma_total_zero(amounts.drop_last());
    }
}

/// A new unstake receipt adds its amount to what is pending of its asset,
/// and nothing to what is pending of any other.
pub proof fn lemma_unstake_issued(
    receipts: Seq<Option<UnstakeReceiptView>>,
    receipt: UnstakeReceiptView,
    address: ResourceAddress,
)
    ensures
        total(unstakes_of(receipts.push(Some(receipt)), address)) == total(
            unstakes_of(receipts, address),
        ) + if receipt.address == address {
            receipt.amount
        } else {
            0
        },
{
    let amount = if receipt.address == address {
        receipt.amount
    } else {
        0
    };
    assert(unstakes_of(receipts.push(Some(receipt)), address) =~= unstakes_of(
        receipts,
        address,
    ).push(amount));
    lemma_total_push(unstakes_of(receipts, address), amount);
}

/// A redeemed unstake receipt takes its amount from what is pending of its
/// asset, and nothing from what is pending of any other.
pub proof fn lemma_unstake_redeemed(
    receipts: Seq<Option<UnstakeReceiptView>>,
    n: int,
    address: ResourceAddress,
)
    requires
        0 <= n < receipts.len(),
        receipts[n] is Some,
    ensures
        total(unstakes_of(receipts.update(n, None), address)) == total(
            unstakes_of(receipts, address),
        ) - if receipts[n].unwrap().address == address {
            receipts[n].unwrap().amount
        } else {
            0
        },
{
    assert(unstakes_of(receipts.update(n, None), address) =~= unstakes_of(
        receipts,
        address,
    ).update(n, 0));
    lemma_total_update(unstakes_of(receipts, address), n, 0);
}

/// A new stake transfer receipt adds its amount to what is pending of its
/// asset, and nothing to what is pending of any other.
pub proof fn lemma_transfer_issued(
    receipts: Seq<Option<StakeTransferReceiptView>>,
    receipt: StakeTransferReceiptView,
    address: ResourceAddress,
)
    ensures
        total(transfers_of(receipts.push(Some(receipt)), address)) == total(
            transfers_of(receipts, address),
        ) + if receipt.address == address {
            receipt.amount
        } else {
            0
        },
{
    let amount = if receipt.address == address {
        receipt.amount
    } else {
        0
    };
    assert(transfers_of(receipts.push(Some(receipt)), address) =~= transfers_of(
        receipts,
        address,
    ).push(amount));
    lemma_total_push(transfers_of(receipts, address), amount);
}

/// A stake transfer receipt that was staked again takes its amount from
/// what is pending of its asset, and nothing from what is pending of any other.
pub proof fn lemma_transfer_used(
    receipts: Seq<Option<StakeTransferReceiptView>>,
    n: int,
    address: ResourceAddress,
)
    requires
        0 <= n < receipts.len(),
        receipts[n] is Some,
    ensures
        total(transfers_of(receipts.update(n, None), address)) == total(
            transfers_of(receipts, address),
        ) - if receipts[n].unwrap().address == address {
            receipts[n].unwrap().amount
        } else {
            0
        },
{
    assert(transfers_of(receipts.update(n, None), address) =~= transfers_of(
        receipts,
        address,
    ).update(n, 0));
    lemma_total_update(transfers_of(receipts, address), n, 0);
}

/// Where no amount is negative, none is more than the sum.
pub proof fn lemma_total_bounds(amounts: Seq<int>, k: int)
    requires
        0 <= k < amounts.len(),
        forall|n: int| 0 <= n < amounts.len() ==> amounts[n] >= 0,
    ensures
        0 <= amounts[k] <= total(amounts),
    decreases amounts.len(),
{
    lemma_total_nonnegative(amounts.drop_last());
    if k < amounts.len() - 1 {
        lemma_total_bounds(amounts.drop_last(), k);
    }
}

/// Where no amount is negative, the sum is not negative.
pub proof fn lemma_total_nonnegative(amounts: Seq<int>)
    requires
        forall|n: int| 0 <= n < amounts.len() ==> amounts[n] >= 0,
    ensures
        0 <= total(amounts),
    decreases amounts.len(),
{
    if amounts.len() > 0 {
        lemma_total_nonnegative(amounts.drop_last());
    }
}

/// In a well-formed ledger the custody vault of an asset covers every
/// pending unstake receipt for it.
pub proof fn lemma_receipt_covered(s: StakingView, receipt: u64)
    requires
        s.wf(),
        s.has_unstake_receipt(receipt),
    ensures
        s.is_stakable(s.unstake_receipt(receipt).address),
        0 <= s.unstake_receipt(receipt).amount <= s.unit(s.unstake_receipt(receipt).address).vault,
{
    let data = s.unstake_receipt(receipt);
    let address = data.address;
    assert(s.unstake_receipts[receipt - 1] is Some);
    lemma_unit_of(s, address);
    let i = s.index_of(address);
    assert(s.stakes[i].vault == s.stakes[i].amount_staked + s.pending(address));
    assert(s.stakes[i].amount_staked == staked_sum(s.ids, address));
    assert forall|j: int| 0 <= j < s.ids.len() implies (#[trigger] s.ids[j]).staked(address)
        >= 0 by {
        if s.ids[j].resources.contains_key(address) {
            assert(s.ids[j].resources[address].amount_staked >= 0);
        }
    }
    lemma_staked_sum_nonnegative(s.ids, address);
    assert forall|n: int| 0 <= n < s.unstake_receipts.len() implies unstakes_of(
        s.unstake_receipts,
        address,
    )[n] >= 0 by {
        if s.unstake_receipts[n] is Some {
            assert(s.unstake_receipts[n].unwrap().amount >= 0);
        }
    }
    lemma_total_bounds(unstakes_of(s.unstake_receipts, address), receipt - 1);
    assert forall|n: int| 0 <= n < s.stake_transfer_receipts.len() implies transfers_of(
        s.stake_transfer_receipts,
        address,
    )[n] >= 0 by {
        if s.stake_transfer_receipts[n] is Some {
            assert(s.stake_transfer_receipts[n].unwrap().amount >= 0);
        }
    }
    lemma_total_nonnegative(transfers_of(s.stake_transfer_receipts, address));
}

/// Nothing is pending of an address that is not stakable.
pub proof fn lemma_pending_unknown(s: StakingView, address: ResourceAddress)
    requires
        s.wf(),
        !s.is_stakable(address),
    ensures
        s.pending(address) == 0,
{
    assert forall|n: int| 0 <= n < s.unstake_receipts.len() implies unstakes_of(
        s.unstake_receipts,
        address,
    )[n] == 0 by {
        if s.unstake_receipts[n] is Some {
            assert(s.is_stakable(s.unstake_receipts[n].unwrap().address));
        }
    }
    lemma_total_zero(unstakes_of(s.unstake_receipts, address));
    assert forall|n: int| 0 <= n < s.stake_transfer_receipts.len() implies transfers_of(
        s.stake_transfer_receipts,
        address,
    )[n] == 0 by {
        if s.stake_transfer_receipts[n] is Some {
            assert(s.is_stakable(s.stake_transfer_receipts[n].unwrap().address));
        }
    }
    lemma_total_zero(transfers_of(s.stake_transfer_receipts, address));
}

/// Receipts that were sound stay sound against the same registry, where
/// each is as it was or used up.
pub proof fn lemma_receipts_kept(s: StakingView, t: StakingView)
    requires
        s.receipts_sound(),
        t.unstake_receipts.len() == s.unstake_receipts.len(),
        t.stake_transfer_receipts.len() == s.stake_transfer_receipts.len(),
        forall|n: int|
            0 <= n < t.unstake_receipts.len() ==> (#[trigger] t.unstake_receipts[n]) is None
                || t.unstake_receipts[n] == s.unstake_receipts[n],
        forall|n: int|
            0 <= n < t.stake_transfer_receipts.len() ==> (
            #[trigger] t.stake_transfer_receipts[n]) is None || t.stake_transfer_receipts[n]
                == s.stake_transfer_receipts[n],
    ensures
        forall|n: int|
            0 <= n < t.unstake_receipts.len() && (#[trigger] t.unstake_receipts[n]) is Some
                ==> s.is_stakable(t.unstake_receipts[n].unwrap().address)
                && t.unstake_receipts[n].unwrap().amount >= 0,
        forall|n: int|
            0 <= n < t.stake_transfer_receipts.len() && (#[trigger] t.stake_transfer_receipts[n]) is Some
                ==> s.is_stakable(t.stake_transfer_receipts[n].unwrap().address)
                && t.stake_transfer_receipts[n].unwrap().amount >= 0,
{
    assert forall|n: int|
        0 <= n < t.unstake_receipts.len() && (#[trigger] t.unstake_receipts[n]) is Some
        implies s.is_stakable(t.unstake_receipts[n].unwrap().address)
        && t.unstake_receipts[n].unwrap().amount >= 0 by {
        assert(s.unstake_receipts[n] is Some);
    }
    assert forall|n: int|
        0 <= n < t.stake_transfer_receipts.len() && (
        #[trigger] t.stake_transfer_receipts[n]) is Some implies s.is_stakable(
        t.stake_transfer_receipts[n].unwrap().address,
    ) && t.stake_transfer_receipts[n].unwrap().amount >= 0 by {
        assert(s.stake_transfer_receipts[n] is Some);
    }
}

/// Receipts that were sound stay sound where they are as they were and no
/// asset has left the registry.
pub proof fn lemma_receipts_sound_kept(s: StakingView, t: StakingView)
    requires
        s.receipts_sound(),
        t.unstake_receipts == s.unstake_receipts,
        t.stake_transfer_receipts == s.stake_transfer_receipts,
        forall|a: ResourceAddress| s.is_stakable(a) ==> t.is_stakable(a),
    ensures
        t.receipts_sound(),
{
    lemma_receipts_kept(s, t);
}

/// Closing a period keeps the ledger well formed.
pub proof fn lemma_advance_wf(s: StakingView, now: int)
    requires
        s.wf(),
        s.advance(now) is Some,
    ensures
        s.advance(now).unwrap().wf(),
        s.advance(now).unwrap().ids == s.ids,
        s.advance(now).unwrap().unstake_receipts == s.unstake_receipts,
        s.advance(now).unwrap().stake_transfer_receipts == s.stake_transfer_receipts,
        s.advance(now).unwrap().reward_vault == s.reward_vault,
        s.advance(now).unwrap().period_interval == s.period_interval,
        s.advance(now).unwrap().max_claim_delay == s.max_claim_delay,
        s.advance(now).unwrap().max_unstaking_delay == s.max_unstaking_delay,
        s.advance(now).unwrap().unstake_delay == s.unstake_delay,
        s.advance(now).unwrap().dao_controlled == s.dao_controlled,
        s.advance(now).unwrap().current_period == if now < s.next_period {
            s.current_period
        } else {
            s.current_period + 1
        },
        s.advance(now).unwrap().stakes.len() == s.stakes.len(),
        forall|i: int|
            0 <= i < s.stakes.len() ==> (#[trigger] s.advance(now).unwrap().stakes[i])
                == if now < s.next_period {
                s.stakes[i]
            } else {
                s.stakes[i].with_rate(s.current_period)
            },
        forall|a: ResourceAddress| s.is_stakable(a) == s.advance(now).unwrap().is_stakable(a),
        forall|a: ResourceAddress|
            s.is_stakable(a) ==> s.index_of(a) == s.advance(now).unwrap().index_of(a),
{
    let t = s.advance(now).unwrap();
    if now >= s.next_period {
        assert(t == s.closed(now));
        lemma_same_addresses(s, t);
        assert forall|i: int| 0 <= i < t.stakes.len() implies {
            &&& (#[trigger] t.stakes[i]).vault >= 0
            &&& forall|p: int| #[trigger]
                t.stakes[i].rewards.contains_key(p) ==> 0 <= p < t.current_period
        } by {
            assert(s.stakes[i].vault >= 0);
            assert forall|p: int| #[trigger] t.stakes[i].rewards.contains_key(p) implies 0 <= p
                < t.current_period by {
                if p != s.current_period {
                    assert(s.stakes[i].rewards.contains_key(p));
                }
            }
        }
        assert forall|i: int| 0 <= i < t.stakes.len() implies (#[trigger] t.stakes[i]).amount_staked
            == staked_sum(t.ids, t.stakes[i].address) by {
            assert(s.stakes[i].amount_staked == staked_sum(s.ids, s.stakes[i].address));
        }
        assert forall|k: int| 0 <= k < t.ids.len() implies {
            &&& 1 <= (#[trigger] t.ids[k]).next_period <= t.current_period + 1
            &&& forall|a: ResourceAddress| #[trigger]
                t.ids[k].resources.contains_key(a) ==> t.is_stakable(a)
                    && t.ids[k].resources[a].amount_staked >= 0
        } by {
            assert(1 <= s.ids[k].next_period <= s.current_period + 1);
        }
        lemma_receipts_sound_kept(s, t);
    }
}

/// A ledger that differs from a well-formed one in the records only, one of
/// which was replaced, is well formed where the replacement is sound and the
/// asset totals moved with it.
pub proof fn lemma_rewritten_wf(s: StakingView, t: StakingView, k: int)
    requires
        s.wf(),
        0 <= k < s.ids.len(),
        t.period_interval > 0,
        t.unstake_delay <= t.max_unstaking_delay,
        t.current_period == s.current_period,
        t.reward_vault >= 0,
        t.ids == s.ids.update(k, t.ids[k]),
        t.stakes.len() == s.stakes.len(),
        forall|i: int|
            0 <= i < s.stakes.len() ==> {
                &&& (#[trigger] t.stakes[i]).address == s.stakes[i].address
                &&& t.stakes[i].rewards == s.stakes[i].rewards
                &&& t.stakes[i].vault >= 0
                &&& t.stakes[i].amount_staked == s.stakes[i].amount_staked - s.ids[k].staked(
                    s.stakes[i].address,
                ) + t.ids[k].staked(s.stakes[i].address)
            },
        1 <= t.ids[k].next_period <= t.current_period + 1,
        forall|a: ResourceAddress| #[trigger]
            t.ids[k].resources.contains_key(a) ==> s.is_stakable(a)
                && t.ids[k].resources[a].amount_staked >= 0,
        forall|n: int|
            0 <= n < t.unstake_receipts.len() && (#[trigger] t.unstake_receipts[n]) is Some
                ==> s.is_stakable(t.unstake_receipts[n].unwrap().address)
                && t.unstake_receipts[n].unwrap().amount >= 0,
        forall|n: int|
            0 <= n < t.stake_transfer_receipts.len() && (#[trigger] t.stake_transfer_receipts[n]) is Some
                ==> s.is_stakable(t.stake_transfer_receipts[n].unwrap().address)
                && t.stake_transfer_receipts[n].unwrap().amount >= 0,
        t.solvent(),
    ensures
        t.wf(),
{
    lemma_same_addresses(s, t);
    assert forall|i: int| 0 <= i < t.stakes.len() implies (#[trigger] t.stakes[i]).amount_staked
        == staked_sum(t.ids, t.stakes[i].address) by {
        assert(s.stakes[i].amount_staked == staked_sum(s.ids, s.stakes[i].address));
        lemma_staked_sum_update(s.ids, k, t.ids[k], s.stakes[i].address);
    }
    assert forall|i: int| 0 <= i < t.stakes.len() implies {
        &&& (#[trigger] t.stakes[i]).vault >= 0
        &&& forall|p: int| #[trigger]
            t.stakes[i].rewards.contains_key(p) ==> 0 <= p < t.current_period
    } by {
        assert(s.stakes[i].vault >= 0);
    }
    assert forall|j: int| 0 <= j < t.ids.len() implies {
        &&& 1 <= (#[trigger] t.ids[j]).next_period <= t.current_period + 1
        &&& forall|a: ResourceAddress| #[trigger]
            t.ids[j].resources.contains_key(a) ==> t.is_stakable(a)
                && t.ids[j].resources[a].amount_staked >= 0
    } by {
        if j != k {
            assert(t.ids[j] == s.ids[j]);
            assert(1 <= s.ids[j].next_period <= s.current_period + 1);
        }
    }
}

/// Creating a record keeps the ledger well formed.
pub proof fn lemma_create_id_wf(s: StakingView, now: int)
    requires
        s.wf(),
    ensures
        s.create_id(now).1.wf(),
{
    if s.advance(now) is Some {
        let m = s.advance(now).unwrap();
        lemma_advance_wf(s, now);
        let t = s.create_id(now).1;
        if t != s {
            let record = IdView { resources: Map::empty(), next_period: m.current_period + 1 };
            assert(t.ids == m.ids.push(record));
            assert forall|a: ResourceAddress| m.is_stakable(a) == t.is_stakable(a) by {
                if m.is_stakable(a) {
                    assert(t.stakes[m.index_of(a)].address == a);
                }
                if t.is_stakable(a) {
                    assert(m.stakes[t.index_of(a)].address == a);
                }
            }
            assert forall|i: int| 0 <= i < t.stakes.len() implies (
            #[trigger] t.stakes[i]).amount_staked == staked_sum(t.ids, t.stakes[i].address) by {
                assert(m.stakes[i].amount_staked == staked_sum(m.ids, m.stakes[i].address));
                lemma_staked_sum_push(m.ids, record, m.stakes[i].address);
            }
            assert forall|i: int| 0 <= i < t.stakes.len() implies {
                &&& (#[trigger] t.stakes[i]).vault >= 0
                &&& forall|p: int| #[trigger]
                    t.stakes[i].rewards.contains_key(p) ==> 0 <= p < t.current_period
            } by {
                assert(m.stakes[i].vault >= 0);
            }
            assert forall|j: int| 0 <= j < t.ids.len() implies {
                &&& 1 <= (#[trigger] t.ids[j]).next_period <= t.current_period + 1
                &&& forall|a: ResourceAddress| #[trigger]
                    t.ids[j].resources.contains_key(a) ==> t.is_stakable(a)
                        && t.ids[j].resources[a].amount_staked >= 0
            } by {
                if j < m.ids.len() {
                    assert(t.ids[j] == m.ids[j]);
                    assert(1 <= m.ids[j].next_period <= m.current_period + 1);
                }
            }
            lemma_receipts_sound_kept(m, t);
        }
    }
}

/// Staking keeps the ledger well formed.
pub proof fn lemma_stake_wf(
    s: StakingView,
    address: ResourceAddress,
    deposit: DepositView,
    id: u64,
    now: int,
)
    requires
        s.wf(),
    ensures
        s.stake(address, deposit, id, now).1.wf(),
{
    let (r, t) = s.stake(address, deposit, id, now);
    if r is Ok {
        let m = s.advance(now).unwrap();
        lemma_advance_wf(s, now);
        lemma_unit_of(m, address);
        let i = m.index_of(address);
        let k = id - 1;
        let amount = match deposit {
            DepositView::Tokens(_, amount) => amount,
            DepositView::TransferReceipt(receipt) => s.stake_transfer_receipt(receipt).amount,
        };
        match deposit {
            DepositView::Tokens(_, _) => {},
            DepositView::TransferReceipt(receipt) => {
                assert(s.stake_transfer_receipts[receipt - 1] is Some);
            },
        }
        assert(amount >= 0);
        assert(m.stakes[i].vault >= 0);
        assert forall|j: int| 0 <= j < m.stakes.len() implies {
            &&& (#[trigger] t.stakes[j]).address == m.stakes[j].address
            &&& t.stakes[j].rewards == m.stakes[j].rewards
            &&& t.stakes[j].vault >= 0
            &&& t.stakes[j].amount_staked == m.stakes[j].amount_staked - m.ids[k].staked(
                m.stakes[j].address,
            ) + t.ids[k].staked(m.stakes[j].address)
        } by {
            assert(m.stakes[j].vault >= 0);
            if j != i {
                lemma_index_of(m, j);
            }
        }
        assert(1 <= m.ids[k].next_period);
        assert forall|a: ResourceAddress| #[trigger]
            t.ids[k].resources.contains_key(a) implies m.is_stakable(a)
            && t.ids[k].resources[a].amount_staked >= 0 by {
            if a != address {
                assert(m.ids[k].resources.contains_key(a));
            } else {
                lemma_position_bounds(m, id, address);
            }
        }
        assert(t.ids =~= m.ids.update(k, t.ids[k]));
        lemma_receipts_kept(m, t);
        assert forall|j: int| 0 <= j < t.stakes.len() implies (#[trigger] t.stakes[j]).vault
            == t.stakes[j].amount_staked + t.pending(t.stakes[j].address) by {
            assert(m.stakes[j].vault == m.stakes[j].amount_staked + m.pending(
                m.stakes[j].address,
            ));
            if j != i {
                lemma_index_of(m, j);
            }
            match deposit {
                DepositView::Tokens(_, _) => {},
                DepositView::TransferReceipt(receipt) => {
                    lemma_transfer_used(
                        m.stake_transfer_receipts,
                        receipt - 1,
                        m.stakes[j].address,
                    );
                },
            }
        }
        lemma_rewritten_wf(m, t, k);
    }
}

/// A ledger that differs from a well-formed one in custody balances, the
/// reward balance and receipts only is well formed where those are sound.
pub proof fn lemma_custody_wf(s: StakingView, t: StakingView)
    requires
        s.wf(),
        t.period_interval > 0,
        t.unstake_delay <= t.max_unstaking_delay,
        t.current_period == s.current_period,
        t.reward_vault >= 0,
        t.ids == s.ids,
        t.stakes.len() == s.stakes.len(),
        forall|i: int|
            0 <= i < s.stakes.len() ==> {
                &&& (#[trigger] t.stakes[i]).address == s.stakes[i].address
                &&& t.stakes[i].rewards == s.stakes[i].rewards
                &&& t.stakes[i].vault >= 0
                &&& t.stakes[i].amount_staked == s.stakes[i].amount_staked
            },
        forall|n: int|
            0 <= n < t.unstake_receipts.len() && (#[trigger] t.unstake_receipts[n]) is Some
                ==> s.is_stakable(t.unstake_receipts[n].unwrap().address)
                && t.unstake_receipts[n].unwrap().amount >= 0,
        forall|n: int|
            0 <= n < t.stake_transfer_receipts.len() && (#[trigger] t.stake_transfer_receipts[n]) is Some
                ==> s.is_stakable(t.stake_transfer_receipts[n].unwrap().address)
                && t.stake_transfer_receipts[n].unwrap().amount >= 0,
        t.solvent(),
    ensures
        t.wf(),
{
    lemma_same_addresses(s, t);
    assert forall|i: int| 0 <= i < t.stakes.len() implies (#[trigger] t.stakes[i]).amount_staked
        == staked_sum(t.ids, t.stakes[i].address) by {
        assert(s.stakes[i].amount_staked == staked_sum(s.ids, s.stakes[i].address));
    }
    assert forall|i: int| 0 <= i < t.stakes.len() implies {
        &&& (#[trigger] t.stakes[i]).vault >= 0
        &&& forall|p: int| #[trigger]
            t.stakes[i].rewards.contains_key(p) ==> 0 <= p < t.current_period
    } by {
        assert(s.stakes[i].vault >= 0);
    }
    assert forall|j: int| 0 <= j < t.ids.len() implies {
        &&& 1 <= (#[trigger] t.ids[j]).next_period <= t.current_period + 1
        &&& forall|a: ResourceAddress| #[trigger]
            t.ids[j].resources.contains_key(a) ==> t.is_stakable(a)
                && t.ids[j].resources[a].amount_staked >= 0
    } by {
        assert(1 <= s.ids[j].next_period <= s.current_period + 1);
    }
}

/// Requesting an unstake keeps the ledger well formed.
pub proof fn lemma_start_unstake_wf(
    s: StakingView,
    id: u64,
    address: ResourceAddress,
    amount: int,
    stake_transfer: bool,
    now: int,
)
    requires
        s.wf(),
    ensures
        s.start_unstake(id, address, amount, stake_transfer, now).1.wf(),
{
    let (r, t) = s.start_unstake(id, address, amount, stake_transfer, now);
    if r is Ok {
        let m = s.advance(now).unwrap();
        lemma_advance_wf(s, now);
        let k = id - 1;
        assert(m.ids[k].resources.contains_key(address));
        assert(m.is_stakable(address));
        lemma_unit_of(m, address);
        let i = m.index_of(address);
        assert forall|j: int| 0 <= j < m.stakes.len() implies {
            &&& (#[trigger] t.stakes[j]).address == m.stakes[j].address
            &&& t.stakes[j].rewards == m.stakes[j].rewards
            &&& t.stakes[j].vault >= 0
            &&& t.stakes[j].amount_staked == m.stakes[j].amount_staked - m.ids[k].staked(
                m.stakes[j].address,
            ) + t.ids[k].staked(m.stakes[j].address)
        } by {
            assert(m.stakes[j].vault >= 0);
            if j != i {
                lemma_index_of(m, j);
            }
        }
        assert forall|a: ResourceAddress| #[trigger]
            t.ids[k].resources.contains_key(a) implies m.is_stakable(a)
            && t.ids[k].resources[a].amount_staked >= 0 by {
            if a != address {
                assert(m.ids[k].resources.contains_key(a));
            }
        }
        assert(t.ids =~= m.ids.update(k, t.ids[k]));
        assert(1 <= m.ids[k].next_period <= m.current_period + 1);
        assert forall|n: int|
            0 <= n < t.unstake_receipts.len() && (#[trigger] t.unstake_receipts[n]) is Some
            implies m.is_stakable(t.unstake_receipts[n].unwrap().address)
            && t.unstake_receipts[n].unwrap().amount >= 0 by {
            if n < m.unstake_receipts.len() {
                assert(m.unstake_receipts[n] is Some);
            }
        }
        assert forall|n: int|
            0 <= n < t.stake_transfer_receipts.len() && (
            #[trigger] t.stake_transfer_receipts[n]) is Some implies m.is_stakable(
            t.stake_transfer_receipts[n].unwrap().address,
        ) && t.stake_transfer_receipts[n].unwrap().amount >= 0 by {
            if n < m.stake_transfer_receipts.len() {
                assert(m.stake_transfer_receipts[n] is Some);
            }
        }
        assert forall|j: int| 0 <= j < t.stakes.len() implies (#[trigger] t.stakes[j]).vault
            == t.stakes[j].amount_staked + t.pending(t.stakes[j].address) by {
            assert(m.stakes[j].vault == m.stakes[j].amount_staked + m.pending(
                m.stakes[j].address,
            ));
            if j != i {
                lemma_index_of(m, j);
            }
            if stake_transfer {
                lemma_transfer_issued(
                    m.stake_transfer_receipts,
                    t.stake_transfer_receipts.last().unwrap(),
                    m.stakes[j].address,
                );
                assert(t.stake_transfer_receipts == m.stake_transfer_receipts.push(
                    Some(t.stake_transfer_receipts.last().unwrap()),
                ));
            } else {
                lemma_unstake_issued(
                    m.unstake_receipts,
                    t.unstake_receipts.last().unwrap(),
                    m.stakes[j].address,
                );
                assert(t.unstake_receipts == m.unstake_receipts.push(
                    Some(t.unstake_receipts.last().unwrap()),
                ));
            }
        }
        lemma_rewritten_wf(m, t, k);
    }
}

/// Redeeming an unstake receipt keeps the ledger well formed.
pub proof fn lemma_finish_unstake_wf(s: StakingView, receipt: u64, now: int)
    requires
        s.wf(),
    ensures
        s.finish_unstake(receipt, now).1.wf(),
{
    let (r, t) = s.finish_unstake(receipt, now);
    if r is Ok {
        let m = s.advance(now).unwrap();
        lemma_advance_wf(s, now);
        lemma_receipt_covered(m, receipt);
        let data = m.unstake_receipt(receipt);
        assert(m.unstake_receipts[receipt - 1] is Some);
        lemma_unit_of(m, data.address);
        lemma_receipts_kept(m, t);
        assert forall|i: int| 0 <= i < m.stakes.len() implies {
            &&& (#[trigger] t.stakes[i]).address == m.stakes[i].address
            &&& t.stakes[i].rewards == m.stakes[i].rewards
            &&& t.stakes[i].vault >= 0
            &&& t.stakes[i].amount_staked == m.stakes[i].amount_staked
        } by {
            assert(m.stakes[i].vault >= 0);
        }
        let i = m.index_of(data.address);
        assert forall|j: int| 0 <= j < t.stakes.len() implies (#[trigger] t.stakes[j]).vault
            == t.stakes[j].amount_staked + t.pending(t.stakes[j].address) by {
            assert(m.stakes[j].vault == m.stakes[j].amount_staked + m.pending(
                m.stakes[j].address,
            ));
            if j != i {
                lemma_index_of(m, j);
            }
            lemma_unstake_redeemed(m.unstake_receipts, receipt - 1, m.stakes[j].address);
        }
        lemma_custody_wf(m, t);
    }
}

/// A record with its claim pointer moved to the period after the current
/// one leaves the ledger well formed.
pub proof fn lemma_pointer_wf(s: StakingView, id: u64)
    requires
        s.wf(),
        s.has_id(id),
    ensures
        s.with_id(id, s.id(id).with_next_period(s.current_period + 1)).wf(),
{
    let t = s.with_id(id, s.id(id).with_next_period(s.current_period + 1));
    let k = id - 1;
    assert forall|j: int| 0 <= j < s.stakes.len() implies {
        &&& (#[trigger] t.stakes[j]).address == s.stakes[j].address
        &&& t.stakes[j].rewards == s.stakes[j].rewards
        &&& t.stakes[j].vault >= 0
        &&& t.stakes[j].amount_staked == s.stakes[j].amount_staked - s.ids[k].staked(
            s.stakes[j].address,
        ) + t.ids[k].staked(s.stakes[j].address)
    } by {
        assert(s.stakes[j].vault >= 0);
    }
    assert forall|a: ResourceAddress| #[trigger]
        t.ids[k].resources.contains_key(a) implies s.is_stakable(a)
        && t.ids[k].resources[a].amount_staked >= 0 by {
        assert(s.ids[k].resources.contains_key(a));
    }
    lemma_receipts_kept(s, t);
    lemma_rewritten_wf(s, t, k);
}

/// A well-formed ledger stays well formed when its reward balance is
/// replaced by one that is not negative.
pub proof fn lemma_reward_vault_wf(s: StakingView, reward_vault: int)
    requires
        s.wf(),
        reward_vault >= 0,
    ensures
        s.with_reward_vault(reward_vault).wf(),
{
    let t = s.with_reward_vault(reward_vault);
    lemma_receipts_kept(s, t);
    assert forall|i: int| 0 <= i < s.stakes.len() implies {
        &&& (#[trigger] t.stakes[i]).address == s.stakes[i].address
        &&& t.stakes[i].rewards == s.stakes[i].rewards
        &&& t.stakes[i].vault >= 0
        &&& t.stakes[i].amount_staked == s.stakes[i].amount_staked
    } by {
        assert(s.stakes[i].vault >= 0);
    }
    lemma_custody_wf(s, t);
}

/// Claiming keeps the ledger well formed.
pub proof fn lemma_update_id_wf(s: StakingView, id: u64, now: int)
    requires
        s.wf(),
    ensures
        s.update_id(id, now).1.wf(),
{
    let (r, t) = s.update_id(id, now);
    if s.has_id(id) && s.advance(now) is Some {
        let m = s.advance(now).unwrap();
        lemma_advance_wf(s, now);
        if m.claimable_periods(id) > 0 {
            lemma_pointer_wf(m, id);
            let p = m.with_id(id, m.id(id).with_next_period(m.current_period + 1));
            if r is Ok {
                lemma_reward_vault_wf(p, m.reward_vault - m.owed(id).unwrap());
            }
        }
    }
}

/// Locking keeps the ledger well formed.
pub proof fn lemma_lock_stake_wf(s: StakingView, address: ResourceAddress, id: u64, now: int)
    requires
        s.wf(),
    ensures
        s.lock_stake(address, id, now).1.wf(),
{
    let (r, t) = s.lock_stake(address, id, now);
    if r is Ok {
        let m = s.advance(now).unwrap();
        lemma_advance_wf(s, now);
        let k = id - 1;
        let bonus = r.unwrap();
        let p = t.with_reward_vault(m.reward_vault);
        assert(m.ids[k].resources.contains_key(address));
        assert forall|j: int| 0 <= j < m.stakes.len() implies {
            &&& (#[trigger] p.stakes[j]).address == m.stakes[j].address
            &&& p.stakes[j].rewards == m.stakes[j].rewards
            &&& p.stakes[j].vault >= 0
            &&& p.stakes[j].amount_staked == m.stakes[j].amount_staked - m.ids[k].staked(
                m.stakes[j].address,
            ) + p.ids[k].staked(m.stakes[j].address)
        } by {
            assert(m.stakes[j].vault >= 0);
        }
        assert forall|a: ResourceAddress| #[trigger]
            p.ids[k].resources.contains_key(a) implies m.is_stakable(a)
            && p.ids[k].resources[a].amount_staked >= 0 by {
            if a != address {
                assert(m.ids[k].resources.contains_key(a));
            }
        }
        assert(p.ids =~= m.ids.update(k, p.ids[k]));
        assert(1 <= m.ids[k].next_period <= m.current_period + 1);
        lemma_receipts_kept(m, p);
        lemma_rewritten_wf(m, p, k);
        lemma_reward_vault_wf(p, m.reward_vault - bonus);
        assert(t == p.with_reward_vault(m.reward_vault - bonus));
    }
}

/// What an asset owes depends on the record's positions only.
pub proof fn lemma_accrue_same_positions(
    stakes: Seq<StakableUnitView>,
    a: IdView,
    b: IdView,
    current: int,
    weeks: int,
    n: int,
)
    requires
        a.resources == b.resources,
    ensures
        accrue(stakes, a, current, weeks, n) == accrue(stakes, b, current, weeks, n),
    decreases n,
{
    if n > 0 {
        lemma_accrue_same_positions(stakes, a, b, current, weeks, n - 1);
    }
}

/// No record holds anything of an address that is not stakable.
pub proof fn lemma_staked_sum_unknown(s: StakingView, address: ResourceAddress)
    requires
        s.wf(),
        !s.is_stakable(address),
    ensures
        staked_sum(s.ids, address) == 0,
{
    lemma_staked_sum_zero(s.ids, address);
}

/// Records that hold nothing of an address sum to nothing.
pub proof fn lemma_staked_sum_zero(ids: Seq<IdView>, address: ResourceAddress)
    requires
        forall|k: int| 0 <= k < ids.len() ==> !(#[trigger] ids[k]).resources.contains_key(address),
    ensures
        staked_sum(ids, address) == 0,
    decreases ids.len(),
{
    if ids.len() > 0 {
        lemma_staked_sum_zero(ids.drop_last(), address);
    }
}

/// A ledger that differs from a well-formed one in settings and reward
/// policies only is well formed where the interval stays positive.
pub proof fn lemma_settings_wf(s: StakingView, t: StakingView)
    requires
        s.wf(),
        t.period_interval > 0,
        t.unstake_delay <= t.max_unstaking_delay,
        t.current_period == s.current_period,
        t.reward_vault == s.reward_vault,
        t.ids == s.ids,
        t.unstake_receipts == s.unstake_receipts,
        t.stake_transfer_receipts == s.stake_transfer_receipts,
        t.stakes.len() == s.stakes.len(),
        forall|i: int|
            0 <= i < s.stakes.len() ==> {
                &&& (#[trigger] t.stakes[i]).address == s.stakes[i].address
                &&& t.stakes[i].rewards == s.stakes[i].rewards
                &&& t.stakes[i].vault == s.stakes[i].vault
                &&& t.stakes[i].amount_staked == s.stakes[i].amount_staked
            },
    ensures
        t.wf(),
{
    lemma_same_addresses(s, t);
    lemma_receipts_kept(s, t);
    assert forall|i: int| 0 <= i < s.stakes.len() implies {
        &&& (#[trigger] t.stakes[i]).address == s.stakes[i].address
        &&& t.stakes[i].rewards == s.stakes[i].rewards
        &&& t.stakes[i].vault >= 0
        &&& t.stakes[i].amount_staked == s.stakes[i].amount_staked
    } by {
        assert(s.stakes[i].vault >= 0);
    }
    lemma_custody_wf(s, t);
}

/// Registering an asset keeps the ledger well formed.
pub proof fn lemma_add_stakable_wf(
    s: StakingView,
    address: ResourceAddress,
    reward_amount: int,
    lock_payment: int,
    lock_duration: int,
)
    requires
        s.wf(),
    ensures
        s.add_stakable(address, reward_amount, lock_payment, lock_duration).1.wf(),
{
    let (r, t) = s.add_stakable(address, reward_amount, lock_payment, lock_duration);
    if r is Ok {
        let n = s.stakes.len() as int;
        assert forall|i: int, j: int| 0 <= i < j < t.stakes.len() implies (
        #[trigger] t.stakes[i]).address != (#[trigger] t.stakes[j]).address by {
            if j == n {
                assert(s.stakes[i].address != address);
            } else {
                assert(s.stakes[i].address != s.stakes[j].address);
            }
        }
        assert forall|a: ResourceAddress| s.is_stakable(a) implies t.is_stakable(a) by {
            assert(t.stakes[s.index_of(a)].address == a);
        }
        assert forall|i: int| 0 <= i < t.stakes.len() implies (#[trigger] t.stakes[i]).amount_staked
            == staked_sum(t.ids, t.stakes[i].address) by {
            if i == n {
                lemma_staked_sum_unknown(s, address);
            } else {
                assert(s.stakes[i].amount_staked == staked_sum(s.ids, s.stakes[i].address));
            }
        }
        assert forall|i: int| 0 <= i < t.stakes.len() implies {
            &&& (#[trigger] t.stakes[i]).vault >= 0
            &&& forall|p: int| #[trigger]
                t.stakes[i].rewards.contains_key(p) ==> 0 <= p < t.current_period
        } by {
            if i < n {
                assert(s.stakes[i].vault >= 0);
            }
        }
        assert forall|i: int| 0 <= i < t.stakes.len() implies (#[trigger] t.stakes[i]).vault
            == t.stakes[i].amount_staked + t.pending(t.stakes[i].address) by {
            if i == n {
                lemma_pending_unknown(s, address);
            } else {
                assert(s.stakes[i].vault == s.stakes[i].amount_staked + s.pending(
                    s.stakes[i].address,
                ));
            }
        }
        assert forall|k: int| 0 <= k < t.ids.len() implies {
            &&& 1 <= (#[trigger] t.ids[k]).next_period <= t.current_period + 1
            &&& forall|a: ResourceAddress| #[trigger]
                t.ids[k].resources.contains_key(a) ==> t.is_stakable(a)
                    && t.ids[k].resources[a].amount_staked >= 0
        } by {
            assert(1 <= s.ids[k].next_period <= s.current_period + 1);
        }
        lemma_receipts_sound_kept(s, t);
    }
}

/// Forcing a lock keeps the ledger well formed.
pub proof fn lemma_set_lock_wf(s: StakingView, address: ResourceAddress, lock_until: int, id: u64)
    requires
        s.wf(),
    ensures
        s.set_lock(address, lock_until, id).1.wf(),
{
    let (r, t) = s.set_lock(address, lock_until, id);
    if r is Ok {
        let k = id - 1;
        assert(s.ids[k].resources.contains_key(address));
        assert forall|j: int| 0 <= j < s.stakes.len() implies {
            &&& (#[trigger] t.stakes[j]).address == s.stakes[j].address
            &&& t.stakes[j].rewards == s.stakes[j].rewards
            &&& t.stakes[j].vault >= 0
            &&& t.stakes[j].amount_staked == s.stakes[j].amount_staked - s.ids[k].staked(
                s.stakes[j].address,
            ) + t.ids[k].staked(s.stakes[j].address)
        } by {
            assert(s.stakes[j].vault >= 0);
        }
        assert forall|a: ResourceAddress| #[trigger]
            t.ids[k].resources.contains_key(a) implies s.is_stakable(a)
            && t.ids[k].resources[a].amount_staked >= 0 by {
            if a != address {
                assert(s.ids[k].resources.contains_key(a));
            }
        }
        assert(t.ids =~= s.ids.update(k, t.ids[k]));
        assert(1 <= s.ids[k].next_period <= s.current_period + 1);
        lemma_receipts_kept(s, t);
        lemma_rewritten_wf(s, t, k);
    }
}

} // verus!
