//! Why the exact settlement takes the fewest transfers: any plan that
//! settles the balances ties the participants into groups that each sum to
//! zero, and needs a transfer for every participant but one of each group.

use vstd::prelude::*;
use vstd::set_lib::{lemma_len_subset, lemma_set_disjoint_lens};
use crate::bitset::BitSet64;
use crate::words::{
    lemma_empty_word, lemma_low_word, lemma_members_injective, lemma_single_word,
    lemma_union_word, members,
};
use crate::exact::{block_balances, block_plans, lemma_block_balances, settles, within};
use crate::partition::{
    is_greatest_split, is_zero_sum_family, is_zero_sum_partition, lemma_family_front,
    partial_sum, positions, subset_sum,
};
use crate::search::{arrange, flow, lemma_place_len, lemma_plan_settles, net};
use crate::transfer::Transfer;

verus! {

/// The positions below `k`.
pub open spec fn below(k: nat) -> Set<nat> {
    Set::new(|i: nat| i < k)
}

proof fn lemma_below(k: nat)
    ensures
        below(k).finite(),
        below(k).len() == k,
    decreases k,
{
    if k == 0 {
        assert(below(0) =~= Set::<nat>::empty());
    } else {
        lemma_below((k - 1) as nat);
        assert(below(k) =~= below((k - 1) as nat).insert((k - 1) as nat));
    }
}

/// How many positions the first `k` blocks hold, block by block.
pub open spec fn held(parts: Seq<BitSet64>, k: nat) -> nat
    decreases k,
{
    if k == 0 {
        0
    } else {
        held(parts, (k - 1) as nat) + parts[k - 1]@.len()
    }
}

/// The positions of the first `k` blocks.
pub open spec fn joined(parts: Seq<BitSet64>, k: nat) -> Set<nat>
    decreases k,
{
    if k == 0 {
        Set::empty()
    } else {
        joined(parts, (k - 1) as nat).union(parts[k - 1]@)
    }
}

/// Blocks that share no position hold together no more positions than
/// there are.
proof fn lemma_held(values: Seq<isize>, parts: Seq<BitSet64>, k: nat)
    requires
        values.len() < 64,
        is_zero_sum_family(values, parts, positions(values)),
        k <= parts.len(),
    ensures
        joined(parts, k).finite(),
        joined(parts, k).len() == held(parts, k),
        joined(parts, k).subset_of(below(values.len())),
        held(parts, k) <= values.len(),
        forall|x: nat|
            joined(parts, k).contains(x) ==> exists|i: int|
                0 <= i < k && (#[trigger] parts[i])@.contains(x),
        forall|i: int| 0 <= i < k ==> (#[trigger] parts[i])@.finite() && parts[i]@.len() >= 1,
    decreases k,
{
    lemma_low_word(values.len() as u64);
    lemma_below(values.len());
    assert(positions(values)@ =~= below(values.len()));
    if k > 0 {
        lemma_held(values, parts, (k - 1) as nat);
        let front = joined(parts, (k - 1) as nat);
        let last = parts[k - 1];
        lemma_len_subset(last@, below(values.len()));
        assert(front.disjoint(last@)) by {
            assert forall|x: nat| front.contains(x) implies !last@.contains(x) by {
                let i = choose|i: int| 0 <= i < k - 1 && (#[trigger] parts[i])@.contains(x);
                assert(parts[i]@.disjoint(parts[k - 1]@));
            }
        }
        lemma_set_disjoint_lens(front, last@);
        lemma_len_subset(joined(parts, k), below(values.len()));
        assert(last@.len() >= 1) by {
            if last@.len() == 0 {
                lemma_empty_word();
                assert(last@ =~= members(0));
                lemma_members_injective(last.0, 0);
            }
        }
        assert forall|x: nat| joined(parts, k).contains(x) implies exists|i: int|
            0 <= i < k && (#[trigger] parts[i])@.contains(x) by {
            if front.contains(x) {
                let i = choose|i: int| 0 <= i < k - 1 && (#[trigger] parts[i])@.contains(x);
                assert(parts[i]@.contains(x));
            } else {
                assert(parts[k - 1]@.contains(x));
            }
        }
    }
}

proof fn lemma_held_prefix(parts: Seq<BitSet64>, front: Seq<BitSet64>, k: nat)
    requires
        k <= front.len() <= parts.len(),
        forall|i: int| 0 <= i < front.len() ==> front[i] == parts[i],
    ensures
        held(front, k) == held(parts, k),
    decreases k,
{
    if k > 0 {
        lemma_held_prefix(parts, front, (k - 1) as nat);
    }
}

proof fn lemma_arrange_len(b: Seq<(usize, isize)>)
    ensures
        arrange(b).len() <= b.len(),
    decreases b.len(),
{
    if b.len() > 0 {
        lemma_arrange_len(b.drop_last());
        lemma_place_len(arrange(b.drop_last()), b.last());
    }
}

proof fn lemma_block_card(values: Seq<isize>, s: Set<nat>, k: nat)
    ensures
        s.intersect(below(k)).finite(),
        block_balances(values, s, k).len() == s.intersect(below(k)).len(),
    decreases k,
{
    if k == 0 {
        assert(s.intersect(below(0)) =~= Set::<nat>::empty());
    } else {
        let j = (k - 1) as nat;
        lemma_block_card(values, s, j);
        if s.contains(j) {
            assert(s.intersect(below(k)) =~= s.intersect(below(j)).insert(j));
        } else {
            assert(s.intersect(below(k)) =~= s.intersect(below(j)));
        }
    }
}

/// The plans of disjoint zero-sum blocks have together no more transfers
/// than there are positions less blocks: each block is settled with a
/// transfer less than it holds positions.
pub proof fn lemma_block_plans_len(values: Seq<isize>, parts: Seq<BitSet64>)
    requires
        values.len() < 64,
        is_zero_sum_family(values, parts, positions(values)),
    ensures
        block_plans(values, parts).len() + parts.len() <= held(parts, parts.len()),
        block_plans(values, parts).len() + parts.len() <= values.len(),
    decreases parts.len(),
{
    lemma_held(values, parts, parts.len());
    if parts.len() > 0 {
        let front = parts.drop_last();
        let last = parts.last();
        lemma_family_front(values, parts, positions(values));
        lemma_block_plans_len(values, front);
        lemma_held_prefix(parts, front, front.len());
        let b = block_balances(values, last@, values.len());
        assert(parts[parts.len() - 1] == last);
        lemma_block_balances(values, last@, values.len(), 0);
        lemma_plan_settles(b, b.len());
        lemma_arrange_len(b);
        lemma_block_card(values, last@, values.len());
        lemma_low_word(values.len() as u64);
        assert(last@.intersect(below(values.len())) =~= last@);
    }
}

/// One of the groups holds both ends of the transfer.
pub open spec fn tied(groups: Seq<BitSet64>, t: Transfer<usize>) -> bool {
    exists|i: int|
        0 <= i < groups.len() && (#[trigger] groups[i])@.contains(t.from as nat) && groups[i]@.contains(
            t.to as nat,
        )
}

/// Every transfer of the plan stays within one of the groups.
pub open spec fn ties(groups: Seq<BitSet64>, plan: Seq<Transfer<usize>>) -> bool {
    forall|k: int| 0 <= k < plan.len() ==> tied(groups, #[trigger] plan[k])
}

/// The groups split the positions below `n`: none is empty, no two share a
/// position, and every position is in one.
pub open spec fn is_grouping(groups: Seq<BitSet64>, n: nat) -> bool {
    &&& forall|i: int|
        0 <= i < groups.len() ==> (#[trigger] groups[i]).0 != 0 && groups[i]@.subset_of(below(n))
    &&& forall|i: int, j: int|
        0 <= i < j < groups.len() ==> (#[trigger] groups[i])@.disjoint((#[trigger] groups[j])@)
    &&& forall|x: nat| #[trigger]
        below(n).contains(x) ==> exists|i: int|
            0 <= i < groups.len() && (#[trigger] groups[i])@.contains(x)
}

/// Two groups of a grouping can be joined into one: what is left is a
/// grouping with a group less, in which every old group lies within a group.
#[verifier::rlimit(50)]
proof fn lemma_join(q: Seq<BitSet64>, n: nat, lo: int, hi: int) -> (groups: Seq<BitSet64>)
    requires
        is_grouping(q, n),
        0 <= lo < hi < q.len(),
    ensures
        is_grouping(groups, n),
        groups.len() == q.len() - 1,
        forall|r: int|
            0 <= r < q.len() ==> exists|m: int|
                0 <= m < groups.len() && (#[trigger] q[r])@.subset_of((#[trigger] groups[m])@),
        q[lo]@.subset_of(groups[lo]@),
        q[hi]@.subset_of(groups[lo]@),
{
    let merged = BitSet64(q[lo].0 | q[hi].0);
    lemma_union_word(q[lo].0, q[hi].0);
    let groups = q.update(lo, merged).remove(hi);
    assert(groups[lo] == merged);
    assert forall|m: int| 0 <= m < groups.len() && m != lo implies #[trigger] groups[m] == q[if m
        < hi {
        m
    } else {
        m + 1
    }] by {}
    assert forall|m: int| 0 <= m < groups.len() implies (#[trigger] groups[m]).0 != 0
        && groups[m]@.subset_of(below(n)) by {
        if m == lo {
            assert(q[lo].0 != 0 && q[lo]@.subset_of(below(n)) && q[hi]@.subset_of(below(n)));
            if merged.0 == 0 {
                lemma_empty_word();
                assert(q[lo]@ =~= members(0));
                lemma_members_injective(q[lo].0, 0);
            }
        } else {
            let src = if m < hi {
                m
            } else {
                m + 1
            };
            assert(groups[m] == q[src]);
        }
    }
    assert forall|m1: int, m2: int| 0 <= m1 < m2 < groups.len() implies (
    #[trigger] groups[m1])@.disjoint((#[trigger] groups[m2])@) by {
        let s1 = if m1 < hi {
            m1
        } else {
            m1 + 1
        };
        let s2 = if m2 < hi {
            m2
        } else {
            m2 + 1
        };
        lemma_apart(q, s1, s2);
        lemma_apart(q, s1, hi);
        lemma_apart(q, s2, hi);
        lemma_apart(q, s1, lo);
        lemma_apart(q, s2, lo);
        if m1 != lo {
            assert(groups[m1] == q[s1]);
        }
        if m2 != lo {
            assert(groups[m2] == q[s2]);
        }
    }
    assert forall|r: int| 0 <= r < q.len() implies exists|m: int|
        0 <= m < groups.len() && (#[trigger] q[r])@.subset_of((#[trigger] groups[m])@) by {
        if r == lo || r == hi {
            assert(q[r]@.subset_of(groups[lo]@));
        } else {
            let m = if r < hi {
                r
            } else {
                r - 1
            };
            assert(groups[m] == q[r]);
            assert(q[r]@.subset_of(groups[m]@));
        }
    }
    assert forall|x: nat| #[trigger] below(n).contains(x) implies exists|m: int|
        0 <= m < groups.len() && (#[trigger] groups[m])@.contains(x) by {
        let r = choose|r: int| 0 <= r < q.len() && (#[trigger] q[r])@.contains(x);
        let m = choose|m: int|
            0 <= m < groups.len() && (#[trigger] q[r])@.subset_of((#[trigger] groups[m])@);
        assert(groups[m]@.contains(x));
    }
    groups
}

/// Two different groups of a grouping share no position.
proof fn lemma_apart(q: Seq<BitSet64>, i: int, j: int)
    requires
        forall|i: int, j: int|
            0 <= i < j < q.len() ==> (#[trigger] q[i])@.disjoint((#[trigger] q[j])@),
        0 <= i < q.len(),
        0 <= j < q.len(),
    ensures
        i != j ==> q[i]@.disjoint(q[j]@),
{
    if i < j {
        assert(q[i]@.disjoint(q[j]@));
    } else if j < i {
        assert(q[j]@.disjoint(q[i]@));
    }
}

/// The transfers of a plan tie the positions into groups, and there are at
/// least as many groups as positions less transfers: without transfers
/// every position is a group, and a transfer joins at most two groups.
#[verifier::rlimit(50)]
proof fn lemma_grouping(n: nat, plan: Seq<Transfer<usize>>) -> (groups: Seq<BitSet64>)
    requires
        n < 64,
        within(plan, n),
    ensures
        is_grouping(groups, n),
        ties(groups, plan),
        groups.len() + plan.len() >= n,
    decreases plan.len(),
{
    if plan.len() == 0 {
        let groups = Seq::new(n, |i: int| BitSet64(1u64 << (i as u64)));
        assert forall|i: int| 0 <= i < groups.len() implies (#[trigger] groups[i])@
            == set![i as nat] by {
            lemma_single_word(i as u64);
        }
        assert forall|i: int| 0 <= i < groups.len() implies (#[trigger] groups[i]).0 != 0
            && groups[i]@.subset_of(below(n)) by {
            assert(groups[i]@.contains(i as nat));
            if groups[i].0 == 0 {
                lemma_empty_word();
            }
        }
        assert forall|x: nat| #[trigger] below(n).contains(x) implies exists|i: int|
            0 <= i < groups.len() && (#[trigger] groups[i])@.contains(x) by {
            assert(groups[x as int]@.contains(x));
        }
        groups
    } else {
        let front = plan.drop_last();
        let t = plan.last();
        assert forall|k: int| 0 <= k < front.len() implies (#[trigger] front[k]).from < n
            && front[k].to < n by {
            assert(front[k] == plan[k]);
        }
        let q = lemma_grouping(n, front);
        assert(plan[plan.len() - 1] == t);
        assert(below(n).contains(t.from as nat) && below(n).contains(t.to as nat));
        let i = choose|i: int| 0 <= i < q.len() && (#[trigger] q[i])@.contains(t.from as nat);
        let j = choose|j: int| 0 <= j < q.len() && (#[trigger] q[j])@.contains(t.to as nat);
        if i == j {
            assert forall|k: int| 0 <= k < plan.len() implies tied(q, #[trigger] plan[k]) by {
                if k < front.len() {
                    assert(front[k] == plan[k]);
                } else {
                    assert(q[i]@.contains(t.from as nat) && q[i]@.contains(t.to as nat));
                }
            }
            q
        } else {
            let lo = if i < j {
                i
            } else {
                j
            };
            let hi = if i < j {
                j
            } else {
                i
            };
            let groups = lemma_join(q, n, lo, hi);
            assert forall|k: int| 0 <= k < plan.len() implies tied(groups, #[trigger] plan[k]) by {
                if k < front.len() {
                    assert(front[k] == plan[k]);
                    assert(tied(q, front[k]));
                    let r = choose|r: int|
                        0 <= r < q.len() && (#[trigger] q[r])@.contains(plan[k].from as nat)
                            && q[r]@.contains(plan[k].to as nat);
                    let m = choose|m: int|
                        0 <= m < groups.len() && (#[trigger] q[r])@.subset_of(
                            (#[trigger] groups[m])@,
                        );
                    assert(groups[m]@.contains(plan[k].from as nat) && groups[m]@.contains(
                        plan[k].to as nat,
                    ));
                } else {
                    assert(groups[lo]@.contains(t.from as nat) && groups[lo]@.contains(
                        t.to as nat,
                    ));
                }
            }
            groups
        }
    }
}

/// What the plan takes from the positions below `k` that are in `b`, all in
/// all.
pub open spec fn group_net(plan: Seq<Transfer<usize>>, b: Set<nat>, k: nat) -> int
    decreases k,
{
    if k == 0 {
        0
    } else {
        group_net(plan, b, (k - 1) as nat) + if b.contains((k - 1) as nat) {
            net(plan, (k - 1) as usize)
        } else {
            0
        }
    }
}

/// What one transfer takes from the positions below `k` that are in `b`.
pub open spec fn group_flow(t: Transfer<usize>, b: Set<nat>, k: nat) -> int
    decreases k,
{
    if k == 0 {
        0
    } else {
        group_flow(t, b, (k - 1) as nat) + if b.contains((k - 1) as nat) {
            flow(t, (k - 1) as usize)
        } else {
            0
        }
    }
}

proof fn lemma_group_flow(t: Transfer<usize>, b: Set<nat>, k: nat)
    requires
        k <= 64,
    ensures
        group_flow(t, b, k) == (if t.from < k && b.contains(t.from as nat) {
            t.amt as int
        } else {
            0
        }) - (if t.to < k && b.contains(t.to as nat) {
            t.amt as int
        } else {
            0
        }),
    decreases k,
{
    if k > 0 {
        lemma_group_flow(t, b, (k - 1) as nat);
    }
}

proof fn lemma_group_net_step(plan: Seq<Transfer<usize>>, b: Set<nat>, k: nat)
    requires
        plan.len() > 0,
    ensures
        group_net(plan, b, k) == group_net(plan.drop_last(), b, k) + group_flow(
            plan.last(),
            b,
            k,
        ),
    decreases k,
{
    if k > 0 {
        lemma_group_net_step(plan, b, (k - 1) as nat);
    }
}

/// A plan takes nothing, all in all, from a group within which each of its
/// transfers either stays or does not come.
proof fn lemma_group_net_zero(plan: Seq<Transfer<usize>>, b: Set<nat>, n: nat)
    requires
        n <= 64,
        within(plan, n),
        forall|k: int|
            0 <= k < plan.len() ==> b.contains((#[trigger] plan[k]).from as nat) == b.contains(
                plan[k].to as nat,
            ),
    ensures
        group_net(plan, b, n) == 0,
    decreases plan.len(),
{
    if plan.len() == 0 {
        lemma_group_net_none(plan, b, n);
    } else {
        let front = plan.drop_last();
        assert forall|k: int| 0 <= k < front.len() implies (#[trigger] front[k]).from < n
            && front[k].to < n && b.contains(front[k].from as nat) == b.contains(
            front[k].to as nat,
        ) by {
            assert(front[k] == plan[k]);
        }
        lemma_group_net_zero(front, b, n);
        lemma_group_net_step(plan, b, n);
        lemma_group_flow(plan.last(), b, n);
        assert(plan[plan.len() - 1] == plan.last());
    }
}

proof fn lemma_group_net_none(plan: Seq<Transfer<usize>>, b: Set<nat>, k: nat)
    requires
        plan.len() == 0,
    ensures
        group_net(plan, b, k) == 0,
    decreases k,
{
    if k > 0 {
        lemma_group_net_none(plan, b, (k - 1) as nat);
    }
}

proof fn lemma_group_sum(values: Seq<isize>, plan: Seq<Transfer<usize>>, b: Set<nat>, k: nat)
    requires
        k <= values.len() <= 64,
        forall|id: usize| id < values.len() ==> #[trigger] net(plan, id) == values[id as int],
    ensures
        partial_sum(values, b, k) == group_net(plan, b, k),
    decreases k,
{
    if k > 0 {
        lemma_group_sum(values, plan, b, (k - 1) as nat);
        assert(net(plan, (k - 1) as usize) == values[k - 1]);
    }
}

/// No plan that settles the values has fewer transfers than the plans of
/// the blocks of a greatest split, nor fewer than there are positions less
/// blocks: the groups into which a plan ties the positions each sum to
/// zero, so there are no more of them than blocks, and the plan has a
/// transfer for every position but one of each group.
pub proof fn lemma_exact_is_least(
    values: Seq<isize>,
    parts: Seq<BitSet64>,
    other: Seq<Transfer<usize>>,
)
    requires
        values.len() < 64,
        is_greatest_split(values, parts),
        settles(values, other),
    ensures
        block_plans(values, parts).len() <= other.len(),
        other.len() + parts.len() >= values.len(),
{
    let n = values.len();
    let whole = positions(values);
    let groups = lemma_grouping(n, other);
    lemma_low_word(n as u64);
    assert(whole@ =~= below(n));
    assert forall|i: int| 0 <= i < groups.len() implies subset_sum(
        values,
        (#[trigger] groups[i])@,
    ) == 0 by {
        let b = groups[i]@;
        assert forall|k: int| 0 <= k < other.len() implies b.contains(
            (#[trigger] other[k]).from as nat,
        ) == b.contains(other[k].to as nat) by {
            assert(tied(groups, other[k]));
            let r = choose|r: int|
                0 <= r < groups.len() && (#[trigger] groups[r])@.contains(other[k].from as nat)
                    && groups[r]@.contains(other[k].to as nat);
            if r < i {
                assert(groups[r]@.disjoint(groups[i]@));
            } else if r > i {
                assert(groups[i]@.disjoint(groups[r]@));
            }
        }
        lemma_group_net_zero(other, b, n);
        lemma_group_sum(values, other, b, n);
    }
    assert(is_zero_sum_partition(values, groups, whole));
    lemma_block_plans_len(values, parts);
}

} // verus!
