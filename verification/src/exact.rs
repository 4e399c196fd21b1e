//! The exact settlement: the balances are split into as many zero-sum blocks
//! as possible, and each block is settled by a plan of its own.

use vstd::prelude::*;
use crate::bitset::BitSet64;
use crate::words::{lemma_low_word, members_from};
use crate::mzsp::MZSP;
use crate::partition::{
    covers, is_greatest_split, is_zero_sum_family, lemma_family_front, partial_sum, positions,
    subset_sum,
};
use crate::planner::construct_plan_within;
use crate::search::{
    balance_of, distinct_ids, lemma_plan_conserves, lemma_plan_settles, lemma_sums_append, net,
    paid, plan_within, positive_part, received, total,
};
use crate::least::{lemma_block_plans_len, lemma_exact_is_least};
use crate::strategy::PlanError;
use crate::transfer::Transfer;

verus! {

/// The most balances that the exact settlement takes.
pub const MAX_EXACT_BALANCES: usize = 63;

/// The balances at the positions below `k` that are in `s`, each with its
/// position, in ascending order of the position.
pub open spec fn block_balances(values: Seq<isize>, s: Set<nat>, k: nat) -> Seq<(usize, isize)>
    decreases k,
{
    if k == 0 {
        Seq::empty()
    } else if s.contains((k - 1) as nat) {
        block_balances(values, s, (k - 1) as nat).push(((k - 1) as usize, values[k - 1]))
    } else {
        block_balances(values, s, (k - 1) as nat)
    }
}

/// The plan of one block: that of the search which its first complete plan
/// ends. The plans of the blocks of a greatest split are together as short
/// as any plan that settles the balances, so none of them is searched to be
/// beaten.
pub open spec fn block_plan(values: Seq<isize>, block: BitSet64) -> Seq<Transfer<usize>> {
    plan_within(
        block_balances(values, block@, values.len()),
        block_balances(values, block@, values.len()).len(),
    )
}

/// The plans of the blocks `parts`, one block after another.
pub open spec fn block_plans(values: Seq<isize>, parts: Seq<BitSet64>) -> Seq<Transfer<usize>>
    decreases parts.len(),
{
    if parts.len() == 0 {
        Seq::empty()
    } else {
        block_plans(values, parts.drop_last()) + block_plan(values, parts.last())
    }
}

/// Both ends of every transfer of the plan are positions below `n`.
pub open spec fn within(plan: Seq<Transfer<usize>>, n: nat) -> bool {
    forall|k: int| 0 <= k < plan.len() ==> (#[trigger] plan[k]).from < n && plan[k].to < n
}

/// The plan settles `values`: its transfers are among the positions of
/// `values`, and it takes from every position the value there.
pub open spec fn settles(values: Seq<isize>, plan: Seq<Transfer<usize>>) -> bool {
    &&& within(plan, values.len())
    &&& forall|id: usize| id < values.len() ==> #[trigger] net(plan, id) == values[id as int]
}

/// Whether one of the blocks holds the position `id`.
pub open spec fn in_some(parts: Seq<BitSet64>, id: usize) -> bool {
    exists|i: int| 0 <= i < parts.len() && (#[trigger] parts[i])@.contains(id as nat)
}

/// The balances of a block name each of its positions once, in ascending
/// order, and sum to what the block sums to.
pub proof fn lemma_block_balances(values: Seq<isize>, s: Set<nat>, k: nat, id: usize)
    requires
        k <= values.len(),
        values.len() <= usize::MAX,
    ensures
        total(block_balances(values, s, k)) == partial_sum(values, s, k),
        balance_of(block_balances(values, s, k), id) == if s.contains(id as nat) && id < k {
            values[id as int] as int
        } else {
            0
        },
        distinct_ids(block_balances(values, s, k)),
        forall|i: int|
            0 <= i < block_balances(values, s, k).len() ==> (#[trigger] block_balances(
                values,
                s,
                k,
            )[i]).0 < k,
    decreases k,
{
    if k > 0 {
        lemma_block_balances(values, s, (k - 1) as nat, id);
        let inner = block_balances(values, s, (k - 1) as nat);
        let all = block_balances(values, s, k);
        if s.contains((k - 1) as nat) {
            assert(all.drop_last() =~= inner);
            assert forall|i: int| 0 <= i < all.len() implies (#[trigger] all[i]).0 < k by {
                if i < inner.len() {
                    assert(all[i] == inner[i]);
                }
            }
            assert forall|i: int, j: int| 0 <= i < j < all.len() implies (#[trigger] all[i]).0 != (
            #[trigger] all[j]).0 by {
                assert(all[i] == inner[i]);
                if j < inner.len() {
                    assert(all[j] == inner[j]);
                }
            }
        }
    }
}

/// The plans of disjoint zero-sum blocks take from a participant exactly its
/// positive balance and give it exactly the magnitude of its negative
/// balance where a block holds it, and leave it alone where none does. Every
/// transfer has a positive amount.
#[verifier::rlimit(50)]
pub proof fn lemma_block_plans(values: Seq<isize>, parts: Seq<BitSet64>, id: usize)
    requires
        values.len() < 64,
        is_zero_sum_family(values, parts, positions(values)),
    ensures
        in_some(parts, id) ==> id < values.len(),
        paid(block_plans(values, parts), id) == if in_some(parts, id) {
            positive_part(values[id as int] as int)
        } else {
            0
        },
        received(block_plans(values, parts), id) == if in_some(parts, id) {
            positive_part(-values[id as int])
        } else {
            0
        },
        net(block_plans(values, parts), id) == if in_some(parts, id) {
            values[id as int] as int
        } else {
            0
        },
        forall|k: int|
            0 <= k < block_plans(values, parts).len() ==> (#[trigger] block_plans(
                values,
                parts,
            )[k]).amt > 0,
    decreases parts.len(),
{
    let n = values.len();
    if parts.len() > 0 {
        let front = parts.drop_last();
        let last = parts.last();
        let b = block_balances(values, last@, n);
        lemma_family_front(values, parts, positions(values));
        lemma_block_plans(values, front, id);
        lemma_block_balances(values, last@, n, id);
        assert(parts[parts.len() - 1] == last);
        lemma_plan_conserves(b, b.len(), id);
        lemma_plan_settles(b, b.len());
        lemma_sums_append(block_plans(values, front), plan_within(b, b.len()), id);
        assert(net(plan_within(b, b.len()), id) == balance_of(b, id));
        lemma_low_word(n as u64);
        if last@.contains(id as nat) {
            assert(positions(values)@.contains(id as nat));
            assert(in_some(parts, id));
            if in_some(front, id) {
                let i = choose|i: int| 0 <= i < front.len() && (#[trigger] front[i])@.contains(
                    id as nat,
                );
                assert(front[i] == parts[i]);
                assert(parts[i]@.disjoint(parts[parts.len() - 1]@));
            }
        } else {
            if in_some(front, id) {
                let i = choose|i: int| 0 <= i < front.len() && (#[trigger] front[i])@.contains(
                    id as nat,
                );
                assert(front[i] == parts[i]);
            }
            if in_some(parts, id) {
                let i = choose|i: int| 0 <= i < parts.len() && (#[trigger] parts[i])@.contains(
                    id as nat,
                );
                assert(front[i] == parts[i]);
            }
        }
    }
}

/// Every transfer of the plans of disjoint zero-sum blocks goes from a
/// position of one of the blocks to another position of the same block.
pub proof fn lemma_block_plans_ends(values: Seq<isize>, parts: Seq<BitSet64>, k: int)
    requires
        values.len() < 64,
        is_zero_sum_family(values, parts, positions(values)),
        0 <= k < block_plans(values, parts).len(),
    ensures
        block_plans(values, parts)[k].from < values.len(),
        block_plans(values, parts)[k].to < values.len(),
        exists|i: int|
            0 <= i < parts.len() && (#[trigger] parts[i])@.contains(
                block_plans(values, parts)[k].from as nat,
            ) && parts[i]@.contains(block_plans(values, parts)[k].to as nat),
    decreases parts.len(),
{
    let front = parts.drop_last();
    let last = parts.last();
    let b = block_balances(values, last@, values.len());
    let inner = block_plans(values, front);
    let t = block_plans(values, parts)[k];
    if k < inner.len() {
        lemma_family_front(values, parts, positions(values));
        lemma_block_plans_ends(values, front, k);
        let i = choose|i: int|
            0 <= i < front.len() && (#[trigger] front[i])@.contains(t.from as nat)
                && front[i]@.contains(t.to as nat);
        assert(parts[i] == front[i]);
    } else {
        assert(t == plan_within(b, b.len())[k - inner.len()]);
        assert(parts[parts.len() - 1] == last);
        lemma_block_balances(values, last@, values.len(), t.from);
        lemma_block_balances(values, last@, values.len(), t.to);
        lemma_plan_conserves(b, b.len(), t.from);
        assert(last@.contains(t.from as nat) && last@.contains(t.to as nat));
    }
}

proof fn lemma_block_gap(values: Seq<isize>, s: Set<nat>, a: nat, b: nat)
    requires
        a <= b,
        forall|i: nat| a <= i < b ==> !s.contains(i),
    ensures
        block_balances(values, s, b) == block_balances(values, s, a),
    decreases b - a,
{
    if a < b {
        lemma_block_gap(values, s, a, (b - 1) as nat);
    }
}

/// The balances at the positions of `block`, each with its position.
pub fn block_pairs(values: &Vec<isize>, block: BitSet64) -> (r: Vec<(usize, isize)>)
    requires
        forall|i: nat| block@.contains(i) ==> i < values.len(),
    ensures
        r@ == block_balances(values@, block@, values@.len()),
{
    let mut out: Vec<(usize, isize)> = Vec::new();
    let mut it = block.elements();
    let ghost mut lo: nat = 0;
    let mut done = false;
    while !done
        invariant
            forall|i: nat| block@.contains(i) ==> i < values.len(),
            lo <= values.len(),
            !done ==> it.remaining() == members_from(block@, lo),
            done ==> forall|i: nat| block@.contains(i) ==> i < lo,
            out@ == block_balances(values@, block@, lo),
        decreases
                (if done {
                    0
                } else {
                    values.len() + 1 - lo
                }),
    {
        match it.next() {
            None => {
                proof {
                    assert forall|i: nat| block@.contains(i) implies i < lo by {
                        if i >= lo {
                            assert(members_from(block@, lo).contains(i));
                        }
                    }
                }
                done = true;
            },
            Some(idx) => {
                proof {
                    assert(members_from(block@, lo).contains(idx as nat));
                    assert forall|i: nat| lo <= i < idx implies !block@.contains(i) by {
                        if block@.contains(i) {
                            assert(members_from(block@, lo).contains(i));
                        }
                    }
                    lemma_block_gap(values@, block@, lo, idx as nat);
                }
                out.push((idx as usize, values[idx as usize]));
                proof {
                    lo = (idx + 1) as nat;
                    assert(it.remaining() =~= members_from(block@, lo));
                }
            },
        }
    }
    proof {
        lemma_block_gap(values@, block@, lo, values@.len());
    }
    out
}

/// Settles `balances` exactly: splits them into as many zero-sum blocks as
/// possible and settles each block by a plan of its own, the block that
/// holds the last position first. The answer holds the plan and the number
/// of blocks. The participants of the transfers are positions of `balances`. Where the balances sum to
/// zero, the plan settles them all, and no plan that does so has fewer
/// transfers: it has one for every balance but one of each block. Balances
/// that belong to no zero-sum block stay as they are.
#[verifier::rlimit(50)]
pub fn compute_repayments_exact(balances: &Vec<isize>) -> (r: Result<
    (Vec<Transfer<usize>>, usize),
    PlanError,
>)
    ensures
        balances.len() > MAX_EXACT_BALANCES <==> r is Err,
        r matches Err(e) ==> e == PlanError::CapacityExceeded,
        r matches Ok((plan, blocks)) ==> exists|parts: Seq<BitSet64>|
            is_greatest_split(balances@, parts) && plan@ == block_plans(balances@, parts)
                && blocks == parts.len(),
        r matches Ok((plan, blocks)) ==> forall|k: int|
            0 <= k < plan.len() ==> (#[trigger] plan[k]).amt > 0,
        r matches Ok((plan, blocks)) ==> within(plan@, balances@.len()),
        r matches Ok((plan, blocks)) ==> forall|id: usize|
            id < balances.len() ==> 0 <= #[trigger] paid(plan@, id) <= positive_part(
                balances[id as int] as int,
            ) && 0 <= received(plan@, id) <= positive_part(-balances[id as int]),
        r matches Ok((plan, blocks)) ==> (subset_sum(balances@, positions(balances@)@) == 0
            ==> settles(balances@, plan@) && plan.len() + blocks == balances.len()),
        r matches Ok((plan, blocks)) ==> forall|other: Seq<Transfer<usize>>| #[trigger]
            settles(balances@, other) ==> plan.len() <= other.len(),
{
    if balances.len() > MAX_EXACT_BALANCES {
        return Err(PlanError::CapacityExceeded);
    }
    let mut walk = MZSP::compute(balances.as_slice());
    let blocks = walk.len();
    let ghost parts = walk.blocks();
    let mut plan: Vec<Transfer<usize>> = Vec::new();
    let mut done = false;
    let ghost mut k: int = 0;
    proof {
        lemma_low_word(balances.len() as u64);
    }
    while !done
        invariant
            balances.len() < 64,
            is_zero_sum_family(balances@, parts, positions(balances@)),
            forall|i: nat| positions(balances@)@.contains(i) ==> i < balances.len(),
            0 <= k <= parts.len(),
            walk.blocks() == parts.skip(k),
            done ==> k == parts.len(),
            plan@ == block_plans(balances@, parts.take(k)),
        decreases
                (if done {
                    0
                } else {
                    parts.len() + 1 - k
                }),
    {
        match walk.next() {
            None => {
                done = true;
            },
            Some(block) => {
                proof {
                    assert(block == parts[k]);
                    assert(parts[k]@.subset_of(positions(balances@)@));
                    assert(parts.skip(k).drop_first() =~= parts.skip(k + 1));
                    assert(parts.take(k + 1).drop_last() =~= parts.take(k));
                    lemma_block_balances(balances@, block@, balances@.len(), 0);
                }
                let pairs = block_pairs(balances, block);
                let enough = pairs.len();
                let mut part = construct_plan_within(pairs, enough);
                plan.append(&mut part);
                proof {
                    k = k + 1;
                }
            },
        }
    }
    proof {
        assert(parts.take(k) =~= parts);
        assert forall|id: usize| id < balances.len() implies 0 <= #[trigger] paid(plan@, id)
            <= positive_part(balances[id as int] as int) && 0 <= received(plan@, id)
            <= positive_part(-balances[id as int]) by {
            lemma_block_plans(balances@, parts, id);
        }
        lemma_block_plans(balances@, parts, 0);
        if subset_sum(balances@, positions(balances@)@) == 0 {
            assert forall|id: usize| id < balances.len() implies #[trigger] net(plan@, id)
                == balances[id as int] by {
                lemma_block_plans(balances@, parts, id);
                assert(positions(balances@)@.contains(id as nat));
                assert(covers(parts, positions(balances@)));
            }
        }
        assert forall|k: int| 0 <= k < plan.len() implies (#[trigger] plan[k]).from
            < balances.len() && plan[k].to < balances.len() by {
            lemma_block_plans_ends(balances@, parts, k);
        }
        assert forall|other: Seq<Transfer<usize>>| #[trigger]
            settles(balances@, other) implies plan.len() <= other.len() by {
            lemma_exact_is_least(balances@, parts, other);
        }
        if subset_sum(balances@, positions(balances@)@) == 0 {
            lemma_exact_is_least(balances@, parts, plan@);
            lemma_block_plans_len(balances@, parts);
        }
    }
    Ok((plan, blocks))
}

} // verus!
