//! The total of a cost mapping: the sum of its values, each key counted once.
use vstd::prelude::*;

verus! {

/// What key `k` adds to a total: its cost where the mapping holds it, and
/// nothing where it does not.
pub open spec fn share(costs: Map<usize, u64>, k: nat) -> nat {
    if k <= usize::MAX && costs.contains_key(k as usize) {
        costs[k as usize] as nat
    } else {
        0
    }
}

/// The sum of the costs held under the keys below `n`.
pub open spec fn sum_below(costs: Map<usize, u64>, n: nat) -> nat
    decreases n,
{
    if n == 0 {
        0
    } else {
        sum_below(costs, (n - 1) as nat) + share(costs, (n - 1) as nat)
    }
}

/// The sum of all the costs that the mapping holds.
pub open spec fn total_cost(costs: Map<usize, u64>) -> nat {
    sum_below(costs, usize::MAX as nat + 1)
}

/// The largest total that any mapping can have.
pub open spec fn total_limit() -> nat {
    (usize::MAX as nat + 1) * (u64::MAX as nat)
}

/// Setting one key changes the sum by the difference at that key.
pub proof fn lemma_sum_insert(costs: Map<usize, u64>, key: usize, cost: u64, n: nat)
    ensures
        sum_below(costs.insert(key, cost), n) + (if key < n {
            share(costs, key as nat)
        } else {
            0
        }) == sum_below(costs, n) + (if key < n {
            cost as nat
        } else {
            0
        }),
    decreases n,
{
    if n > 0 {
        lemma_sum_insert(costs, key, cost, (n - 1) as nat);
    }
}

/// No sum below `n` exceeds `n` times the largest cost.
pub proof fn lemma_sum_bound(costs: Map<usize, u64>, n: nat)
    ensures
        sum_below(costs, n) <= n * (u64::MAX as nat),
    decreases n,
{
    if n > 0 {
        lemma_sum_bound(costs, (n - 1) as nat);
        assert(n * (u64::MAX as nat) == (n - 1) * (u64::MAX as nat) + (u64::MAX as nat))
            by (nonlinear_arith);
    }
}

/// The empty mapping costs nothing.
pub proof fn lemma_total_empty()
    ensures
        total_cost(Map::<usize, u64>::empty()) == 0,
{
    lemma_sum_zero(Map::<usize, u64>::empty(), usize::MAX as nat + 1);
}

proof fn lemma_sum_zero(costs: Map<usize, u64>, n: nat)
    requires
        forall|k: usize| !costs.contains_key(k),
    ensures
        sum_below(costs, n) == 0,
    decreases n,
{
    if n > 0 {
        lemma_sum_zero(costs, (n - 1) as nat);
    }
}

/// Setting one key changes the total by the difference at that key: a new
/// key adds its cost, and a key that was there is counted once, at its new
/// cost.
pub proof fn lemma_total_insert(costs: Map<usize, u64>, key: usize, cost: u64)
    ensures
        total_cost(costs.insert(key, cost)) + share(costs, key as nat) == total_cost(costs)
            + cost,
{
    lemma_sum_insert(costs, key, cost, usize::MAX as nat + 1);
}

/// Merging a mapping into another adds the costs of those keys only that
/// the other does not hold already. A class
/// that both mappings rest on adds nothing the second time.
pub proof fn lemma_merge_counts_once(held: Map<usize, u64>, merged_in: Map<usize, u64>)
    ensures
        total_cost(merged_in.union_prefer_right(held)) == total_cost(held) + total_cost(
            merged_in.remove_keys(held.dom()),
        ),
{
    lemma_sum_merge(held, merged_in, usize::MAX as nat + 1);
}

proof fn lemma_sum_merge(held: Map<usize, u64>, merged_in: Map<usize, u64>, n: nat)
    ensures
        sum_below(merged_in.union_prefer_right(held), n) == sum_below(held, n) + sum_below(
            merged_in.remove_keys(held.dom()),
            n,
        ),
    decreases n,
{
    if n > 0 {
        lemma_sum_merge(held, merged_in, (n - 1) as nat);
    }
}

/// Every total fits in 128 bits.
pub proof fn lemma_total_fits(costs: Map<usize, u64>)
    ensures
        total_cost(costs) <= total_limit(),
        total_limit() < 0x1_0000_0000_0000_0000_0000_0000_0000_0000,
{
    lemma_sum_bound(costs, usize::MAX as nat + 1);
    assert((usize::MAX as nat + 1) * (u64::MAX as nat)
        < 0x1_0000_0000_0000_0000_0000_0000_0000_0000) by (nonlinear_arith)
        requires
            usize::MAX as nat + 1 <= 0x1_0000_0000_0000_0000,
            u64::MAX as nat == 0xffff_ffff_ffff_ffff,
    ;
}

} // verus!
