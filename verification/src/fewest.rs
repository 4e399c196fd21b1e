//! Why the full search finds a plan of the fewest transfers for a block: any
//! plan among the participants of the block ties them into groups that each
//! sum to zero, and the balances of such groups can be paid off group by
//! group, with a transfer for every balance but one of each group.

use vstd::prelude::*;
use crate::search::{
    arrange, balance_of, distinct_ids, exact_plan, flow, lemma_balance_at, lemma_pair_off_len,
    lemma_place_insert, lemma_place_len, lemma_plan_least, net, none_settled, opposite, pair_off,
    settles_in,
};
use crate::transfer::Transfer;

verus! {

/// The sum of the amounts that the list holds under the participants that
/// `label` puts into the group `g`.
pub open spec fn group_total(s: Seq<(usize, isize)>, label: spec_fn(usize) -> int, g: int) -> int
    decreases s.len(),
{
    if s.len() == 0 {
        0
    } else {
        group_total(s.drop_last(), label, g) + if label(s.last().0) == g {
            s.last().1 as int
        } else {
            0
        }
    }
}

/// Whether the list holds a balance of a participant of the group `g`.
pub open spec fn has_group(s: Seq<(usize, isize)>, label: spec_fn(usize) -> int, g: int) -> bool {
    exists|k: int| 0 <= k < s.len() && label((#[trigger] s[k]).0) == g
}

/// How many of the groups below `m` the list holds a balance of.
pub open spec fn live(s: Seq<(usize, isize)>, label: spec_fn(usize) -> int, m: nat) -> nat
    decreases m,
{
    if m == 0 {
        0
    } else {
        live(s, label, (m - 1) as nat) + if has_group(s, label, m - 1) {
            1nat
        } else {
            0nat
        }
    }
}

proof fn lemma_group_concat(
    a: Seq<(usize, isize)>,
    b: Seq<(usize, isize)>,
    label: spec_fn(usize) -> int,
    g: int,
)
    ensures
        group_total(a + b, label, g) == group_total(a, label, g) + group_total(b, label, g),
    decreases b.len(),
{
    if b.len() == 0 {
        assert(a + b =~= a);
    } else {
        assert((a + b).drop_last() =~= a + b.drop_last());
        lemma_group_concat(a, b.drop_last(), label, g);
    }
}

proof fn lemma_group_one(e: (usize, isize), label: spec_fn(usize) -> int, g: int)
    ensures
        group_total(seq![e], label, g) == if label(e.0) == g {
            e.1 as int
        } else {
            0
        },
{
    let none = Seq::<(usize, isize)>::empty();
    assert(seq![e].drop_last() =~= none);
    assert(group_total(none, label, g) == 0);
}

proof fn lemma_group_insert(
    s: Seq<(usize, isize)>,
    p: int,
    e: (usize, isize),
    label: spec_fn(usize) -> int,
    g: int,
)
    requires
        0 <= p <= s.len(),
    ensures
        group_total(s.insert(p, e), label, g) == group_total(s, label, g) + if label(e.0) == g {
            e.1 as int
        } else {
            0
        },
{
    assert(s.insert(p, e) =~= s.take(p) + seq![e] + s.skip(p));
    assert(s =~= s.take(p) + s.skip(p));
    lemma_group_concat(s.take(p) + seq![e], s.skip(p), label, g);
    lemma_group_concat(s.take(p), seq![e], label, g);
    lemma_group_concat(s.take(p), s.skip(p), label, g);
    lemma_group_one(e, label, g);
}

/// Balances of a group that all have the sign of the first balance of the
/// list, which is one of them, do not sum to zero.
proof fn lemma_group_sign(s: Seq<(usize, isize)>, label: spec_fn(usize) -> int, n: int)
    requires
        1 <= n <= s.len(),
        none_settled(s),
        forall|k: int|
            1 <= k < s.len() && label((#[trigger] s[k]).0) == label(s[0].0) ==> !opposite(
                s[0].1,
                s[k].1,
            ),
    ensures
        s[0].1 < 0 ==> group_total(s.take(n), label, label(s[0].0)) < 0,
        s[0].1 > 0 ==> group_total(s.take(n), label, label(s[0].0)) > 0,
    decreases n,
{
    assert(s.take(n).drop_last() =~= s.take(n - 1));
    assert(s[n - 1].1 != 0);
    if n > 1 {
        lemma_group_sign(s, label, n - 1);
    } else {
        assert(group_total(s.take(0), label, label(s[0].0)) == 0);
    }
}

/// In a list whose groups each sum to zero, the first balance has a partner
/// of the opposite sign in its own group.
proof fn lemma_group_partner(s: Seq<(usize, isize)>, label: spec_fn(usize) -> int) -> (j: int)
    requires
        s.len() > 0,
        none_settled(s),
        group_total(s, label, label(s[0].0)) == 0,
    ensures
        1 <= j < s.len(),
        label(s[j].0) == label(s[0].0),
        opposite(s[0].1, s[j].1),
{
    if forall|k: int|
        1 <= k < s.len() && label((#[trigger] s[k]).0) == label(s[0].0) ==> !opposite(
            s[0].1,
            s[k].1,
        ) {
        lemma_group_sign(s, label, s.len() as int);
        assert(s.take(s.len() as int) =~= s);
        assert(s[0].1 != 0);
        assert(false);
    }
    choose|k: int|
        1 <= k < s.len() && label((#[trigger] s[k]).0) == label(s[0].0) && opposite(
            s[0].1,
            s[k].1,
        )
}

/// Paying the first balance off against a partner of its own group leaves
/// every group with its sum, and every group with its balances but the
/// group of the two, which keeps one unless the two settle each other.
#[verifier::rlimit(50)]
proof fn lemma_group_step(s: Seq<(usize, isize)>, label: spec_fn(usize) -> int, j: int)
    requires
        none_settled(s),
        1 <= j < s.len(),
        label(s[j].0) == label(s[0].0),
        opposite(s[0].1, s[j].1),
    ensures
        none_settled(pair_off(s, j)),
        forall|g: int| #[trigger]
            group_total(pair_off(s, j), label, g) == group_total(s, label, g),
        forall|g: int|
            g != label(s[0].0) && #[trigger] has_group(s, label, g) ==> has_group(
                pair_off(s, j),
                label,
                g,
            ),
        s[j].1 + s[0].1 != 0 ==> has_group(pair_off(s, j), label, label(s[0].0))
            && pair_off(s, j).len() == s.len() - 1,
        s[j].1 + s[0].1 == 0 ==> pair_off(s, j).len() == s.len() - 2,
        forall|k: int|
            0 <= k < pair_off(s, j).len() ==> exists|i: int|
                0 <= i < s.len() && (#[trigger] pair_off(s, j)[k]).0 == s[i].0,
{
    let head = s[0];
    let x = s[j];
    let front = s.subrange(1, j);
    let back = s.subrange(j + 1, s.len() as int);
    let rest = front + back;
    let amount = x.1 + head.1;
    let e = (x.0, amount as isize);
    let next = pair_off(s, j);
    assert(head.1 != 0 && x.1 != 0);
    assert(s =~= seq![head] + front + seq![x] + back);
    assert forall|k: int| 0 <= k < rest.len() implies #[trigger] rest[k] == s[if k < front.len() {
        k + 1
    } else {
        k + 2
    }] by {}
    let p = if amount != 0 {
        lemma_place_insert(rest, e)
    } else {
        0
    };
    assert forall|k: int| 0 <= k < next.len() implies (#[trigger] next[k]).1 != 0 && exists|i: int|
        0 <= i < s.len() && next[k].0 == s[i].0 by {
        if amount != 0 && k == p {
            assert(next[k].0 == s[j].0);
        } else {
            let r = if amount != 0 && k > p {
                k - 1
            } else {
                k
            };
            assert(next[k] == rest[r]);
            let i = if r < front.len() {
                r + 1
            } else {
                r + 2
            };
            assert(rest[r] == s[i]);
        }
    }
    assert forall|g: int| #[trigger]
        group_total(next, label, g) == group_total(s, label, g) by {
        lemma_group_concat(seq![head] + front + seq![x], back, label, g);
        lemma_group_concat(seq![head] + front, seq![x], label, g);
        lemma_group_concat(seq![head], front, label, g);
        lemma_group_concat(front, back, label, g);
        lemma_group_one(head, label, g);
        lemma_group_one(x, label, g);
        if amount != 0 {
            lemma_group_insert(rest, p, e, label, g);
        }
    }
    assert forall|g: int| g != label(s[0].0) && #[trigger] has_group(s, label, g) implies has_group(
        next,
        label,
        g,
    ) by {
        let k = choose|k: int| 0 <= k < s.len() && label((#[trigger] s[k]).0) == g;
        let r = if k < j {
            k - 1
        } else {
            k - 2
        };
        assert(rest[r] == s[k]);
        let q = if amount != 0 && r >= p {
            r + 1
        } else {
            r
        };
        assert(next[q] == rest[r]);
        assert(label(next[q].0) == g);
    }
    if amount != 0 {
        assert(next[p] == e);
        assert(label(next[p].0) == label(s[0].0));
    }
    lemma_pair_off_len(s, j);
    lemma_place_len(rest, e);
}

/// A list that holds a balance of every group that another holds one of,
/// but perhaps of the group `but`, holds balances of no fewer groups but
/// one. The two lists may go by different labels.
proof fn lemma_live_step(
    s: Seq<(usize, isize)>,
    label: spec_fn(usize) -> int,
    next: Seq<(usize, isize)>,
    label2: spec_fn(usize) -> int,
    m: nat,
    but: int,
)
    requires
        forall|g: int| g != but && #[trigger] has_group(s, label, g) ==> has_group(next, label2, g),
    ensures
        live(next, label2, m) + 1 >= live(s, label, m),
        has_group(next, label2, but) || !(0 <= but < m) ==> live(next, label2, m) >= live(
            s,
            label,
            m,
        ),
    decreases m,
{
    if m > 0 {
        lemma_live_step(s, label, next, label2, (m - 1) as nat, but);
        if but != m - 1 && has_group(s, label, m - 1) {
            assert(has_group(next, label2, m - 1));
        }
    }
}

/// Balances whose groups each sum to zero can be paid off in an order that
/// takes a transfer for every balance but one of each group.
pub proof fn lemma_order_exists(
    s: Seq<(usize, isize)>,
    label: spec_fn(usize) -> int,
    m: nat,
) -> (choices: Seq<int>)
    requires
        none_settled(s),
        forall|g: int| 0 <= g < m ==> #[trigger] group_total(s, label, g) == 0,
        forall|k: int| 0 <= k < s.len() ==> 0 <= label((#[trigger] s[k]).0) < m,
    ensures
        settles_in(s, choices),
        choices.len() + live(s, label, m) <= s.len(),
    decreases s.len(),
{
    if s.len() == 0 {
        lemma_live_none(s, label, m);
        Seq::empty()
    } else {
        let group = label(s[0].0);
        assert(group_total(s, label, group) == 0);
        let j = lemma_group_partner(s, label);
        lemma_group_step(s, label, j);
        lemma_pair_off_len(s, j);
        let next = pair_off(s, j);
        assert forall|g: int| 0 <= g < m implies #[trigger] group_total(next, label, g) == 0 by {
            assert(group_total(s, label, g) == 0);
        }
        assert forall|k: int| 0 <= k < next.len() implies 0 <= label((#[trigger] next[k]).0)
            < m by {
            let i = choose|i: int| 0 <= i < s.len() && next[k].0 == s[i].0;
            assert(0 <= label(s[i].0) < m);
        }
        let rest = lemma_order_exists(next, label, m);
        lemma_live_step(s, label, next, label, m, group);
        let choices = seq![j] + rest;
        assert(choices[0] == j);
        assert(choices.drop_first() =~= rest);
        choices
    }
}

proof fn lemma_live_none(s: Seq<(usize, isize)>, label: spec_fn(usize) -> int, m: nat)
    requires
        s.len() == 0,
    ensures
        live(s, label, m) == 0,
    decreases m,
{
    if m > 0 {
        lemma_live_none(s, label, (m - 1) as nat);
    }
}

/// Whether the list holds a balance under the participant `id`.
pub open spec fn names(b: Seq<(usize, isize)>, id: usize) -> bool {
    exists|i: int| 0 <= i < b.len() && (#[trigger] b[i]).0 == id
}

/// Both ends of every transfer of the plan are participants of the list.
pub open spec fn among(b: Seq<(usize, isize)>, plan: Seq<Transfer<usize>>) -> bool {
    forall|k: int| 0 <= k < plan.len() ==> names(b, (#[trigger] plan[k]).from) && names(b, plan[k].to)
}

/// The place at which the list holds the balance of `id`.
pub open spec fn place_of(b: Seq<(usize, isize)>, id: usize) -> int {
    choose|i: int| 0 <= i < b.len() && (#[trigger] b[i]).0 == id
}

/// What the plan takes from the participants of the first `k` balances of
/// the list that are in the group `g`, all in all.
pub open spec fn class_net(
    b: Seq<(usize, isize)>,
    label: spec_fn(usize) -> int,
    g: int,
    plan: Seq<Transfer<usize>>,
    k: nat,
) -> int
    decreases k,
{
    if k == 0 {
        0
    } else {
        class_net(b, label, g, plan, (k - 1) as nat) + if label(b[k - 1].0) == g {
            net(plan, b[k - 1].0)
        } else {
            0
        }
    }
}

/// What one transfer takes from the participants of the first `k` balances
/// of the list that are in the group `g`.
pub open spec fn class_flow(
    b: Seq<(usize, isize)>,
    label: spec_fn(usize) -> int,
    g: int,
    t: Transfer<usize>,
    k: nat,
) -> int
    decreases k,
{
    if k == 0 {
        0
    } else {
        class_flow(b, label, g, t, (k - 1) as nat) + if label(b[k - 1].0) == g {
            flow(t, b[k - 1].0)
        } else {
            0
        }
    }
}

proof fn lemma_class_flow(
    b: Seq<(usize, isize)>,
    label: spec_fn(usize) -> int,
    g: int,
    t: Transfer<usize>,
    k: nat,
)
    requires
        distinct_ids(b),
        k <= b.len(),
    ensures
        class_flow(b, label, g, t, k) == (if names(b.take(k as int), t.from) && label(t.from)
            == g {
            t.amt as int
        } else {
            0
        }) - (if names(b.take(k as int), t.to) && label(t.to) == g {
            t.amt as int
        } else {
            0
        }),
    decreases k,
{
    if k > 0 {
        let j = (k - 1) as nat;
        lemma_class_flow(b, label, g, t, j);
        let front = b.take(j as int);
        let now = b.take(k as int);
        assert(now[j as int] == b[j as int]);
        assert forall|id: usize| names(now, id) == (names(front, id) || b[j as int].0 == id) by {
            if names(front, id) {
                let i = choose|i: int| 0 <= i < front.len() && (#[trigger] front[i]).0 == id;
                assert(now[i] == front[i]);
            }
            if names(now, id) && b[j as int].0 != id {
                let i = choose|i: int| 0 <= i < now.len() && (#[trigger] now[i]).0 == id;
                assert(front[i] == now[i]);
            }
        }
        assert forall|id: usize| names(front, id) implies b[j as int].0 != id by {
            let i = choose|i: int| 0 <= i < front.len() && (#[trigger] front[i]).0 == id;
            assert(front[i] == b[i]);
        }
    }
}

proof fn lemma_class_net_step(
    b: Seq<(usize, isize)>,
    label: spec_fn(usize) -> int,
    g: int,
    plan: Seq<Transfer<usize>>,
    k: nat,
)
    requires
        plan.len() > 0,
    ensures
        class_net(b, label, g, plan, k) == class_net(b, label, g, plan.drop_last(), k)
            + class_flow(b, label, g, plan.last(), k),
    decreases k,
{
    if k > 0 {
        lemma_class_net_step(b, label, g, plan, (k - 1) as nat);
    }
}

proof fn lemma_class_net_none(
    b: Seq<(usize, isize)>,
    label: spec_fn(usize) -> int,
    g: int,
    plan: Seq<Transfer<usize>>,
    k: nat,
)
    requires
        plan.len() == 0,
    ensures
        class_net(b, label, g, plan, k) == 0,
    decreases k,
{
    if k > 0 {
        lemma_class_net_none(b, label, g, plan, (k - 1) as nat);
    }
}

/// A plan among the participants of the list takes nothing, all in all,
/// from a group that none of its transfers leaves.
proof fn lemma_class_net_zero(
    b: Seq<(usize, isize)>,
    label: spec_fn(usize) -> int,
    g: int,
    plan: Seq<Transfer<usize>>,
)
    requires
        distinct_ids(b),
        among(b, plan),
        forall|k: int| 0 <= k < plan.len() ==> label((#[trigger] plan[k]).from) == label(plan[k].to),
    ensures
        class_net(b, label, g, plan, b.len()) == 0,
    decreases plan.len(),
{
    if plan.len() == 0 {
        lemma_class_net_none(b, label, g, plan, b.len());
    } else {
        let front = plan.drop_last();
        assert forall|k: int| 0 <= k < front.len() implies names(b, (#[trigger] front[k]).from)
            && names(b, front[k].to) && label(front[k].from) == label(front[k].to) by {
            assert(front[k] == plan[k]);
        }
        lemma_class_net_zero(b, label, g, front);
        lemma_class_net_step(b, label, g, plan, b.len());
        lemma_class_flow(b, label, g, plan.last(), b.len());
        assert(b.take(b.len() as int) =~= b);
        assert(plan[plan.len() - 1] == plan.last());
    }
}

proof fn lemma_class_sum(
    b: Seq<(usize, isize)>,
    label: spec_fn(usize) -> int,
    g: int,
    plan: Seq<Transfer<usize>>,
    k: nat,
)
    requires
        distinct_ids(b),
        k <= b.len(),
        forall|id: usize| #[trigger] net(plan, id) == balance_of(b, id),
    ensures
        group_total(b.take(k as int), label, g) == class_net(b, label, g, plan, k),
    decreases k,
{
    if k > 0 {
        lemma_class_sum(b, label, g, plan, (k - 1) as nat);
        assert(b.take(k as int).drop_last() =~= b.take(k - 1));
        lemma_balance_at(b, k - 1);
        assert(net(plan, b[k - 1].0) == balance_of(b, b[k - 1].0));
    } else {
        assert(group_total(b.take(0), label, g) == 0);
    }
}

/// The transfers of a plan among the participants of a list tie them into
/// groups: labels below the length of the list under which no transfer
/// leaves a group, and under which the list holds balances of at least as
/// many groups as it has balances less the transfers.
#[verifier::rlimit(50)]
proof fn lemma_labels(b: Seq<(usize, isize)>, plan: Seq<Transfer<usize>>) -> (label: spec_fn(
    usize,
) -> int)
    requires
        distinct_ids(b),
        among(b, plan),
    ensures
        forall|i: int| 0 <= i < b.len() ==> 0 <= label((#[trigger] b[i]).0) < b.len(),
        forall|k: int| 0 <= k < plan.len() ==> label((#[trigger] plan[k]).from) == label(plan[k].to),
        live(b, label, b.len()) + plan.len() >= b.len(),
    decreases plan.len(),
{
    if plan.len() == 0 {
        let label = |id: usize| place_of(b, id);
        assert forall|i: int| 0 <= i < b.len() implies label((#[trigger] b[i]).0) == i by {
            let j = place_of(b, b[i].0);
            assert(0 <= j < b.len() && b[j].0 == b[i].0);
            if j < i {
                assert(b[j].0 != b[i].0);
            } else if i < j {
                assert(b[i].0 != b[j].0);
            }
        }
        lemma_live_all(b, label, b.len());
        label
    } else {
        let front = plan.drop_last();
        let t = plan.last();
        assert forall|k: int| 0 <= k < front.len() implies names(b, (#[trigger] front[k]).from)
            && names(b, front[k].to) by {
            assert(front[k] == plan[k]);
        }
        let prior = lemma_labels(b, front);
        assert(plan[plan.len() - 1] == t);
        let keep = prior(t.from);
        let gone = prior(t.to);
        if keep == gone {
            assert forall|k: int| 0 <= k < plan.len() implies prior((#[trigger] plan[k]).from)
                == prior(plan[k].to) by {
                if k < front.len() {
                    assert(front[k] == plan[k]);
                }
            }
            prior
        } else {
            let label = |id: usize|
                if prior(id) == gone {
                    keep
                } else {
                    prior(id)
                };
            assert(names(b, t.from));
            let i = choose|i: int| 0 <= i < b.len() && (#[trigger] b[i]).0 == t.from;
            assert(0 <= prior(b[i].0) < b.len());
            assert forall|k: int| 0 <= k < plan.len() implies label((#[trigger] plan[k]).from)
                == label(plan[k].to) by {
                if k < front.len() {
                    assert(front[k] == plan[k]);
                }
            }
            assert forall|g: int| g != gone && #[trigger] has_group(b, prior, g) implies has_group(
                b,
                label,
                g,
            ) by {
                let k = choose|k: int| 0 <= k < b.len() && prior((#[trigger] b[k]).0) == g;
                assert(label(b[k].0) == g);
            }
            lemma_live_step(b, prior, b, label, b.len(), gone);
            label
        }
    }
}

/// Under labels that give every balance of the list a group of its own
/// among the first `m`, the list holds balances of all of these.
proof fn lemma_live_all(b: Seq<(usize, isize)>, label: spec_fn(usize) -> int, m: nat)
    requires
        m <= b.len(),
        forall|i: int| 0 <= i < b.len() ==> label((#[trigger] b[i]).0) == i,
    ensures
        live(b, label, m) == m,
    decreases m,
{
    if m > 0 {
        lemma_live_all(b, label, (m - 1) as nat);
        assert(label(b[m - 1].0) == m - 1);
    }
}

/// The arranged list of balances none of which is settled is as long as the
/// list, and every group has in it the sum that it had.
proof fn lemma_arrange_groups(b: Seq<(usize, isize)>, label: spec_fn(usize) -> int, g: int)
    requires
        none_settled(b),
    ensures
        arrange(b).len() == b.len(),
        group_total(arrange(b), label, g) == group_total(b, label, g),
    decreases b.len(),
{
    if b.len() > 0 {
        let front = b.drop_last();
        let e = b.last();
        assert(b[b.len() - 1].1 != 0);
        assert forall|i: int| 0 <= i < front.len() implies (#[trigger] front[i]).1 != 0 by {
            assert(front[i] == b[i]);
        }
        lemma_arrange_groups(front, label, g);
        let p = lemma_place_insert(arrange(front), e);
        lemma_group_insert(arrange(front), p, e, label, g);
    }
}

/// Whether the list holds the balance `e`.
pub open spec fn holds(s: Seq<(usize, isize)>, e: (usize, isize)) -> bool {
    exists|k: int| 0 <= k < s.len() && #[trigger] s[k] == e
}

/// The arranged list of balances none of which is settled holds the
/// balances of the list, and no others.
#[verifier::rlimit(50)]
proof fn lemma_arrange_holds(b: Seq<(usize, isize)>, e: (usize, isize))
    requires
        none_settled(b),
    ensures
        holds(arrange(b), e) == holds(b, e),
    decreases b.len(),
{
    if b.len() > 0 {
        let front = b.drop_last();
        let last = b.last();
        assert(b[b.len() - 1].1 != 0);
        assert forall|i: int| 0 <= i < front.len() implies (#[trigger] front[i]).1 != 0 by {
            assert(front[i] == b[i]);
        }
        lemma_arrange_holds(front, e);
        let inner = arrange(front);
        let p = lemma_place_insert(inner, last);
        let all = inner.insert(p, last);
        assert(arrange(b) == all);
        if holds(front, e) {
            let i = choose|i: int| 0 <= i < front.len() && #[trigger] front[i] == e;
            assert(b[i] == e);
            let k = choose|k: int| 0 <= k < inner.len() && #[trigger] inner[k] == e;
            let k2 = if k < p {
                k
            } else {
                k + 1
            };
            assert(all[k2] == e);
        }
        if last == e {
            assert(all[p] == e);
            assert(b[b.len() - 1] == e);
        }
        if holds(all, e) && last != e {
            let k = choose|k: int| 0 <= k < all.len() && #[trigger] all[k] == e;
            let k2 = if k < p {
                k
            } else {
                k - 1
            };
            assert(inner[k2] == e);
        }
        if holds(b, e) && last != e {
            let i = choose|i: int| 0 <= i < b.len() && #[trigger] b[i] == e;
            assert(front[i] == e);
        }
    }
}

/// The plan settles the block: its transfers are among the participants of
/// the block, and it takes from every participant the balance of it.
pub open spec fn settles_block(b: Seq<(usize, isize)>, plan: Seq<Transfer<usize>>) -> bool {
    &&& among(b, plan)
    &&& forall|id: usize| #[trigger] net(plan, id) == balance_of(b, id)
}

/// No plan among the participants of a block settles it with fewer
/// transfers than the plan of the full search: the other plan ties the
/// balances into groups that each sum to zero, and the search is no worse
/// than paying them off group by group.
#[verifier::rlimit(50)]
pub proof fn lemma_exact_plan_is_least(b: Seq<(usize, isize)>, other: Seq<Transfer<usize>>)
    requires
        none_settled(b),
        distinct_ids(b),
        settles_block(b, other),
    ensures
        exact_plan(b).len() <= other.len(),
{
    let n = b.len();
    let label = lemma_labels(b, other);
    let s = arrange(b);
    lemma_arrange_groups(b, label, 0);
    assert forall|g: int| 0 <= g < n implies #[trigger] group_total(s, label, g) == 0 by {
        lemma_arrange_groups(b, label, g);
        lemma_class_sum(b, label, g, other, n);
        lemma_class_net_zero(b, label, g, other);
        assert(b.take(n as int) =~= b);
    }
    assert forall|k: int| 0 <= k < s.len() implies 0 <= label((#[trigger] s[k]).0) < n && s[k].1
        != 0 by {
        lemma_arrange_holds(b, s[k]);
        assert(holds(s, s[k]));
        let i = choose|i: int| 0 <= i < b.len() && #[trigger] b[i] == s[k];
        assert(0 <= label(b[i].0) < n);
    }
    let choices = lemma_order_exists(s, label, n);
    assert forall|g: int| g != -1 && #[trigger] has_group(b, label, g) implies has_group(
        s,
        label,
        g,
    ) by {
        let i = choose|i: int| 0 <= i < b.len() && label((#[trigger] b[i]).0) == g;
        lemma_arrange_holds(b, b[i]);
        assert(holds(b, b[i]));
        let k = choose|k: int| 0 <= k < s.len() && #[trigger] s[k] == b[i];
        assert(label(s[k].0) == g);
    }
    lemma_live_step(b, label, s, label, n, -1);
    lemma_plan_least(b, 0, choices);
}

} // verus!
