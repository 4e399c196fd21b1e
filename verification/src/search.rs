//! The search of the exact planner as a function of the balances, and what
//! holds of the plan it finds.

use vstd::prelude::*;
use crate::transfer::Transfer;

verus! {

/// The absolute value of an amount.
pub open spec fn magnitude(a: isize) -> int {
    if a < 0 {
        -a
    } else {
        a as int
    }
}

/// The list `s` with the balance `e` put in behind every balance that is
/// not greater in magnitude than `e`.
pub open spec fn place(s: Seq<(usize, isize)>, e: (usize, isize)) -> Seq<(usize, isize)>
    decreases s.len(),
{
    if s.len() == 0 {
        seq![e]
    } else if magnitude(s.last().1) <= magnitude(e.1) {
        s.push(e)
    } else {
        place(s.drop_last(), e).push(s.last())
    }
}

/// The balances of `b` that are not zero, in ascending order of magnitude;
/// among equal magnitudes the earlier balance comes first.
pub open spec fn arrange(b: Seq<(usize, isize)>) -> Seq<(usize, isize)>
    decreases b.len(),
{
    if b.len() == 0 {
        Seq::empty()
    } else if b.last().1 == 0 {
        arrange(b.drop_last())
    } else {
        place(arrange(b.drop_last()), b.last())
    }
}

/// Whether two amounts, neither of them zero, differ in sign.
pub open spec fn opposite(a: isize, b: isize) -> bool {
    (a < 0) != (b < 0)
}

/// What is left of the list `s` when its first balance is paid off against
/// its balance at `j`: the first balance is gone, and the other has taken
/// its amount over; where that settles it, it is gone too, else it moves to
/// the place of its new magnitude.
pub open spec fn pair_off(s: Seq<(usize, isize)>, j: int) -> Seq<(usize, isize)> {
    let rest = s.subrange(1, j) + s.subrange(j + 1, s.len() as int);
    let amount = s[j].1 + s[0].1;
    if amount == 0 {
        rest
    } else {
        place(rest, (s[j].0, amount as isize))
    }
}

/// The transfer that pays the first balance of `s` off against the one at
/// `j`. Its amount has the sign of the first balance.
pub open spec fn pay_off(s: Seq<(usize, isize)>, j: int) -> Transfer<usize> {
    Transfer { from: s[0].0, to: s[j].0, amt: s[0].1 }
}

/// The search from the list `s`, with the transfers `plan` made so far and
/// the best complete plan `best` known so far, if `found` says there is one.
/// A branch that cannot beat `best` is given up, and so is every branch once
/// `best` has no more than `enough` transfers; a branch that has paid off
/// every balance becomes the best plan; any other branch tries every
/// partner of the first balance in turn.
pub open spec fn search(
    s: Seq<(usize, isize)>,
    plan: Seq<Transfer<usize>>,
    best: Seq<Transfer<usize>>,
    found: bool,
    enough: nat,
) -> (Seq<Transfer<usize>>, bool)
    decreases s.len(), 1int, 0int,
{
    if found && (plan.len() >= best.len() || best.len() <= enough) {
        (best, found)
    } else if s.len() == 0 {
        (plan, true)
    } else {
        try_partners(s, 1, plan, best, found, enough)
    }
}

/// The part of the search from `s` that tries the partners at `j` and
/// behind it: every balance of the sign opposite to that of the first.
pub open spec fn try_partners(
    s: Seq<(usize, isize)>,
    j: int,
    plan: Seq<Transfer<usize>>,
    best: Seq<Transfer<usize>>,
    found: bool,
    enough: nat,
) -> (Seq<Transfer<usize>>, bool)
    decreases s.len(), 0int, s.len() - j,
{
    if j < 1 || j >= s.len() {
        (best, found)
    } else if opposite(s[0].1, s[j].1) {
        proof {
            lemma_pair_off_len(s, j);
        }
        let (best2, found2) = search(
            pair_off(s, j),
            plan.push(pay_off(s, j)),
            best,
            found,
            enough,
        );
        try_partners(s, j + 1, plan, best2, found2, enough)
    } else {
        try_partners(s, j + 1, plan, best, found, enough)
    }
}

/// The transfer with an amount that is not negative: a payment of a negative
/// amount is the payment of the opposite amount the other way.
pub open spec fn normal(t: Transfer<usize>) -> Transfer<usize> {
    if t.amt < 0 {
        Transfer { from: t.to, to: t.from, amt: (-t.amt) as isize }
    } else {
        t
    }
}

/// A plan with every transfer turned so that its amount is not negative.
pub open spec fn normalised(plan: Seq<Transfer<usize>>) -> Seq<Transfer<usize>> {
    plan.map_values(|t: Transfer<usize>| normal(t))
}

/// The plan that the search finds for the balances `b` where a plan of no
/// more than `enough` transfers ends it, every transfer with a positive
/// amount.
pub open spec fn plan_within(b: Seq<(usize, isize)>, enough: nat) -> Seq<Transfer<usize>> {
    normalised(search(arrange(b), Seq::empty(), Seq::empty(), false, enough).0)
}

/// The plan that the full search finds for the balances `b`.
pub open spec fn exact_plan(b: Seq<(usize, isize)>) -> Seq<Transfer<usize>> {
    plan_within(b, 0)
}

/// The sum of the amounts of a list of balances.
pub open spec fn total(b: Seq<(usize, isize)>) -> int
    decreases b.len(),
{
    if b.len() == 0 {
        0
    } else {
        total(b.drop_last()) + b.last().1
    }
}

/// The sum of the amounts that a list of balances holds under `id`.
pub open spec fn balance_of(b: Seq<(usize, isize)>, id: usize) -> int
    decreases b.len(),
{
    if b.len() == 0 {
        0
    } else {
        balance_of(b.drop_last(), id) + if b.last().0 == id {
            b.last().1 as int
        } else {
            0
        }
    }
}

/// What one transfer takes from `id`: its amount where `id` pays, the
/// opposite where `id` is paid.
pub open spec fn flow(t: Transfer<usize>, id: usize) -> int {
    (if t.from == id {
        t.amt as int
    } else {
        0
    }) - (if t.to == id {
        t.amt as int
    } else {
        0
    })
}

/// What the transfers of a plan take from `id`, all in all.
pub open spec fn net(plan: Seq<Transfer<usize>>, id: usize) -> int
    decreases plan.len(),
{
    if plan.len() == 0 {
        0
    } else {
        net(plan.drop_last(), id) + flow(plan.last(), id)
    }
}

/// The list is in ascending order of magnitude.
pub open spec fn ascending(s: Seq<(usize, isize)>) -> bool {
    forall|i: int, j: int|
        0 <= i <= j < s.len() ==> magnitude(#[trigger] s[i].1) <= magnitude(#[trigger] s[j].1)
}

/// No balance of the list is zero.
pub open spec fn none_settled(s: Seq<(usize, isize)>) -> bool {
    forall|k: int| 0 <= k < s.len() ==> (#[trigger] s[k]).1 != 0
}

/// No two balances of the list are held under one participant.
pub open spec fn distinct_ids(b: Seq<(usize, isize)>) -> bool {
    forall|i: int, j: int| 0 <= i < j < b.len() ==> (#[trigger] b[i]).0 != (#[trigger] b[j]).0
}

/// An amount that is not zero has the sign of `balance`.
pub open spec fn agrees(a: isize, balance: int) -> bool {
    (a > 0 ==> balance > 0) && (a < 0 ==> balance < 0)
}

/// The signs in a state of the search are those of `orig`: every open
/// balance has the sign that `orig` holds under its participant, and every
/// transfer made goes from a participant to one of the opposite sign, its
/// amount having the sign of the one it comes from.
pub open spec fn signs_ok(
    orig: Seq<(usize, isize)>,
    s: Seq<(usize, isize)>,
    plan: Seq<Transfer<usize>>,
) -> bool {
    &&& distinct_ids(s)
    &&& forall|k: int|
        0 <= k < s.len() ==> agrees((#[trigger] s[k]).1, balance_of(orig, s[k].0))
    &&& forall|k: int|
        0 <= k < plan.len() ==> agrees((#[trigger] plan[k]).amt, balance_of(orig, plan[k].from))
            && agrees(plan[k].amt, -balance_of(orig, plan[k].to))
}

/// A state of the search for the balances `orig`: the balances still open
/// sum to zero, none of them is settled, they are in ascending order of
/// magnitude, and with what the transfers made so far have taken, every
/// participant is where `orig` had it. No transfer is of the amount zero, or
/// of one that has no opposite. Every transfer has settled a balance, and
/// the last one two.
pub open spec fn state_ok(
    orig: Seq<(usize, isize)>,
    s: Seq<(usize, isize)>,
    plan: Seq<Transfer<usize>>,
) -> bool {
    &&& total(s) == 0
    &&& none_settled(s)
    &&& ascending(s)
    &&& forall|id: usize| #[trigger] net(plan, id) + balance_of(s, id) == balance_of(orig, id)
    &&& forall|k: int| 0 <= k < plan.len() ==> (#[trigger] plan[k]).amt != 0 && plan[k].amt > isize::MIN
    &&& distinct_ids(orig) ==> signs_ok(orig, s, plan)
    &&& plan.len() + s.len() <= arrange(orig).len()
    &&& s.len() == 0 && plan.len() > 0 ==> plan.len() < arrange(orig).len()
}

/// The positive part of an amount.
pub open spec fn positive_part(a: int) -> int {
    if a > 0 {
        a
    } else {
        0
    }
}

/// What `id` pays in a plan, all in all.
pub open spec fn paid(plan: Seq<Transfer<usize>>, id: usize) -> int
    decreases plan.len(),
{
    if plan.len() == 0 {
        0
    } else {
        paid(plan.drop_last(), id) + if plan.last().from == id {
            plan.last().amt as int
        } else {
            0
        }
    }
}

/// What `id` is paid in a plan, all in all.
pub open spec fn received(plan: Seq<Transfer<usize>>, id: usize) -> int
    decreases plan.len(),
{
    if plan.len() == 0 {
        0
    } else {
        received(plan.drop_last(), id) + if plan.last().to == id {
            plan.last().amt as int
        } else {
            0
        }
    }
}

/// Whether the list `s` is paid off by following `choices`: at each step the
/// first balance is paid off against the one at the chosen place, which has
/// the opposite sign, and with the last choice no balance is left.
pub open spec fn settles_in(s: Seq<(usize, isize)>, choices: Seq<int>) -> bool
    decreases choices.len(),
{
    if s.len() == 0 {
        choices.len() == 0
    } else {
        &&& choices.len() > 0
        &&& 1 <= choices[0] < s.len()
        &&& opposite(s[0].1, s[choices[0]].1)
        &&& settles_in(pair_off(s, choices[0]), choices.drop_first())
    }
}

/// Putting a balance in makes the list longer by one.
pub proof fn lemma_place_len(s: Seq<(usize, isize)>, e: (usize, isize))
    ensures
        place(s, e).len() == s.len() + 1,
    decreases s.len(),
{
    if s.len() > 0 && magnitude(s.last().1) > magnitude(e.1) {
        lemma_place_len(s.drop_last(), e);
    }
}

/// Paying the first balance off makes the list shorter by one or by two.
pub proof fn lemma_pair_off_len(s: Seq<(usize, isize)>, j: int)
    requires
        1 <= j < s.len(),
    ensures
        pair_off(s, j).len() < s.len(),
        pair_off(s, j).len() >= s.len() - 2,
{
    let rest = s.subrange(1, j) + s.subrange(j + 1, s.len() as int);
    lemma_place_len(rest, (s[j].0, (s[j].1 + s[0].1) as isize));
}

/// Putting a balance in is inserting it at the place behind which every
/// balance is greater in magnitude and before which the nearest one is not.
pub(crate) proof fn lemma_place_at(s: Seq<(usize, isize)>, e: (usize, isize), p: int)
    requires
        0 <= p <= s.len(),
        forall|k: int| p <= k < s.len() ==> magnitude(#[trigger] s[k].1) > magnitude(e.1),
        p == 0 || magnitude(s[p - 1].1) <= magnitude(e.1),
    ensures
        place(s, e) == s.insert(p, e),
    decreases s.len(),
{
    if s.len() == 0 {
        assert(seq![e] =~= s.insert(p, e));
    } else if p == s.len() {
        assert(s.push(e) =~= s.insert(p, e));
    } else {
        assert(magnitude(s[s.len() - 1].1) > magnitude(e.1));
        lemma_place_at(s.drop_last(), e, p);
        assert(s.drop_last().insert(p, e).push(s.last()) =~= s.insert(p, e));
    }
}

/// The sums of two lists one after the other are the sums of both.
pub(crate) proof fn lemma_sums_concat(a: Seq<(usize, isize)>, b: Seq<(usize, isize)>, id: usize)
    ensures
        total(a + b) == total(a) + total(b),
        balance_of(a + b, id) == balance_of(a, id) + balance_of(b, id),
    decreases b.len(),
{
    if b.len() == 0 {
        assert(a + b =~= a);
    } else {
        assert((a + b).drop_last() =~= a + b.drop_last());
        lemma_sums_concat(a, b.drop_last(), id);
    }
}

/// The sums of a list of one balance.
pub(crate) proof fn lemma_sums_one(e: (usize, isize), id: usize)
    ensures
        total(seq![e]) == e.1,
        balance_of(seq![e], id) == if e.0 == id {
            e.1 as int
        } else {
            0
        },
{
    let none = Seq::<(usize, isize)>::empty();
    assert(seq![e].drop_last() =~= none);
    assert(total(none) == 0);
    assert(balance_of(none, id) == 0);
}

/// Putting a balance in adds its amount to the sums, keeps the order, and
/// keeps the list free of settled balances.
pub(crate) proof fn lemma_place_sums(s: Seq<(usize, isize)>, e: (usize, isize), id: usize)
    ensures
        total(place(s, e)) == total(s) + e.1,
        balance_of(place(s, e), id) == balance_of(s, id) + if e.0 == id {
            e.1 as int
        } else {
            0
        },
    decreases s.len(),
{
    if s.len() == 0 {
        lemma_sums_one(e, id);
    } else if magnitude(s.last().1) <= magnitude(e.1) {
        assert(s.push(e).drop_last() =~= s);
    } else {
        lemma_place_sums(s.drop_last(), e, id);
        assert(place(s.drop_last(), e).push(s.last()).drop_last() =~= place(s.drop_last(), e));
    }
}

/// Putting a balance that is not settled into a list in ascending order
/// keeps the order and brings in nothing else.
#[verifier::rlimit(50)]
pub(crate) proof fn lemma_place_order(s: Seq<(usize, isize)>, e: (usize, isize))
    requires
        ascending(s),
        none_settled(s),
        e.1 != 0,
    ensures
        ascending(place(s, e)),
        none_settled(place(s, e)),
        forall|k: int|
            0 <= k < place(s, e).len() ==> #[trigger] place(s, e)[k] == e || exists|i: int|
                0 <= i < s.len() && s[i] == place(s, e)[k],
    decreases s.len(),
{
    let r = place(s, e);
    if s.len() == 0 {
    } else if magnitude(s.last().1) <= magnitude(e.1) {
        assert forall|k: int| 0 <= k < r.len() implies #[trigger] r[k] == e || exists|i: int|
            0 <= i < s.len() && s[i] == r[k] by {
            if k < s.len() {
                assert(s[k] == r[k]);
            }
        }
    } else {
        let front = s.drop_last();
        lemma_place_order(front, e);
        lemma_place_len(front, e);
        let inner = place(front, e);
        assert forall|k: int| 0 <= k < r.len() implies #[trigger] r[k] == e || exists|i: int|
            0 <= i < s.len() && s[i] == r[k] by {
            if k < inner.len() {
                assert(r[k] == inner[k]);
                if inner[k] != e {
                    let i = choose|i: int| 0 <= i < front.len() && front[i] == inner[k];
                    assert(s[i] == r[k]);
                }
            } else {
                assert(s[s.len() - 1] == r[k]);
            }
        }
        assert forall|i: int, j: int| 0 <= i <= j < r.len() implies magnitude(
            #[trigger] r[i].1,
        ) <= magnitude(#[trigger] r[j].1) by {
            if j < inner.len() {
                assert(r[i] == inner[i] && r[j] == inner[j]);
            } else if i < inner.len() {
                assert(r[i] == inner[i]);
                if inner[i] != e {
                    let k = choose|k: int| 0 <= k < front.len() && front[k] == inner[i];
                    assert(magnitude(s[k].1) <= magnitude(s[s.len() - 1].1));
                }
            }
        }
    }
}

/// The arranged list has the sums of the list it was made from, is in
/// ascending order and free of settled balances.
pub proof fn lemma_arrange(b: Seq<(usize, isize)>, id: usize)
    ensures
        total(arrange(b)) == total(b),
        balance_of(arrange(b), id) == balance_of(b, id),
        ascending(arrange(b)),
        none_settled(arrange(b)),
    decreases b.len(),
{
    if b.len() > 0 {
        lemma_arrange(b.drop_last(), id);
        if b.last().1 != 0 {
            lemma_place_sums(arrange(b.drop_last()), b.last(), id);
            lemma_place_order(arrange(b.drop_last()), b.last());
        }
    }
}

/// Among balances that sum to zero and are not settled, the first has a
/// partner of the opposite sign.
pub(crate) proof fn lemma_partner(s: Seq<(usize, isize)>) -> (k: int)
    requires
        s.len() > 0,
        total(s) == 0,
        none_settled(s),
    ensures
        1 <= k < s.len(),
        opposite(s[0].1, s[k].1),
{
    if forall|k: int| 1 <= k < s.len() ==> !opposite(s[0].1, #[trigger] s[k].1) {
        lemma_same_sign(s, s.len() as int);
        assert(s.take(s.len() as int) =~= s);
        assert(false);
    }
    choose|k: int| 1 <= k < s.len() && opposite(s[0].1, #[trigger] s[k].1)
}

/// Balances that all have the sign of the first do not sum to zero.
pub(crate) proof fn lemma_same_sign(s: Seq<(usize, isize)>, n: int)
    requires
        1 <= n <= s.len(),
        none_settled(s),
        forall|k: int| 1 <= k < s.len() ==> !opposite(s[0].1, #[trigger] s[k].1),
    ensures
        s[0].1 < 0 ==> total(s.take(n)) < 0,
        s[0].1 > 0 ==> total(s.take(n)) > 0,
    decreases n,
{
    assert(s.take(n).drop_last() =~= s.take(n - 1));
    assert(s[n - 1].1 != 0);
    if n > 1 {
        lemma_same_sign(s, n - 1);
        assert(!opposite(s[0].1, s[n - 1].1));
    } else {
        assert(total(s.take(0)) == 0);
    }
}

/// Putting a balance in is inserting it somewhere.
pub(crate) proof fn lemma_place_insert(s: Seq<(usize, isize)>, e: (usize, isize)) -> (p: int)
    ensures
        0 <= p <= s.len(),
        place(s, e) == s.insert(p, e),
    decreases s.len(),
{
    if s.len() == 0 {
        assert(seq![e] =~= s.insert(0, e));
        0
    } else if magnitude(s.last().1) <= magnitude(e.1) {
        assert(s.push(e) =~= s.insert(s.len() as int, e));
        s.len() as int
    } else {
        let p = lemma_place_insert(s.drop_last(), e);
        assert(s.drop_last().insert(p, e).push(s.last()) =~= s.insert(p, e));
        p
    }
}

/// Putting in a balance of a participant that the list does not hold keeps
/// the participants distinct.
pub(crate) proof fn lemma_place_distinct(s: Seq<(usize, isize)>, e: (usize, isize))
    requires
        distinct_ids(s),
        forall|k: int| 0 <= k < s.len() ==> (#[trigger] s[k]).0 != e.0,
    ensures
        distinct_ids(place(s, e)),
{
    let p = lemma_place_insert(s, e);
    let r = s.insert(p, e);
    assert forall|i: int, j: int| 0 <= i < j < r.len() implies (#[trigger] r[i]).0 != (
    #[trigger] r[j]).0 by {
        let i2 = if i < p {
            i
        } else {
            i - 1
        };
        let j2 = if j < p {
            j
        } else {
            j - 1
        };
        if i != p {
            assert(r[i] == s[i2]);
        }
        if j != p {
            assert(r[j] == s[j2]);
        }
    }
}

/// Where the participants are distinct, the list holds under the
/// participant of a balance the amount of that balance.
pub proof fn lemma_balance_at(b: Seq<(usize, isize)>, i: int)
    requires
        distinct_ids(b),
        0 <= i < b.len(),
    ensures
        balance_of(b, b[i].0) == b[i].1,
    decreases b.len(),
{
    let front = b.drop_last();
    if i < b.len() - 1 {
        assert(front[i] == b[i]);
        lemma_balance_at(front, i);
        assert(b[i].0 != b[b.len() - 1].0);
    } else {
        assert forall|k: int| 0 <= k < front.len() implies (#[trigger] front[k]).0 != b[i].0 by {
            assert(front[k] == b[k]);
        }
        lemma_balance_absent(front, b[i].0);
    }
}

/// A list holds nothing under a participant that it does not name.
pub proof fn lemma_balance_absent(b: Seq<(usize, isize)>, id: usize)
    requires
        forall|k: int| 0 <= k < b.len() ==> (#[trigger] b[k]).0 != id,
    ensures
        balance_of(b, id) == 0,
    decreases b.len(),
{
    if b.len() > 0 {
        assert forall|k: int| 0 <= k < b.drop_last().len() implies (#[trigger] b.drop_last()[k]).0
            != id by {
            assert(b.drop_last()[k] == b[k]);
        }
        lemma_balance_absent(b.drop_last(), id);
        assert(b[b.len() - 1].0 != id);
    }
}

/// Where the participants of the balances are distinct, the arranged list
/// starts the search with the signs in order.
#[verifier::rlimit(50)]
pub(crate) proof fn lemma_arrange_signs(orig: Seq<(usize, isize)>, b: Seq<(usize, isize)>)
    requires
        distinct_ids(orig),
        b.len() <= orig.len(),
        b == orig.take(b.len() as int),
    ensures
        distinct_ids(arrange(b)),
        forall|k: int|
            0 <= k < arrange(b).len() ==> exists|i: int|
                0 <= i < b.len() && b[i] == #[trigger] arrange(b)[k],
    decreases b.len(),
{
    if b.len() > 0 {
        let front = b.drop_last();
        assert(front =~= orig.take(front.len() as int));
        lemma_arrange_signs(orig, front);
        let inner = arrange(front);
        assert forall|k: int| 0 <= k < inner.len() implies exists|i: int|
            0 <= i < b.len() && b[i] == #[trigger] inner[k] by {
            let i = choose|i: int| 0 <= i < front.len() && front[i] == inner[k];
            assert(b[i] == inner[k]);
        }
        if b.last().1 != 0 {
            let e = b.last();
            assert forall|k: int| 0 <= k < inner.len() implies (#[trigger] inner[k]).0 != e.0 by {
                let i = choose|i: int| 0 <= i < front.len() && front[i] == inner[k];
                assert(orig[i] == front[i]);
                assert(orig[b.len() - 1] == e);
            }
            lemma_place_distinct(inner, e);
            let p = lemma_place_insert(inner, e);
            let r = inner.insert(p, e);
            assert forall|k: int| 0 <= k < r.len() implies exists|i: int|
                0 <= i < b.len() && b[i] == #[trigger] r[k] by {
                if k == p {
                    assert(b[b.len() - 1] == r[k]);
                } else {
                    let k2 = if k < p {
                        k
                    } else {
                        k - 1
                    };
                    assert(r[k] == inner[k2]);
                    let i = choose|i: int| 0 <= i < b.len() && b[i] == inner[k2];
                    assert(b[i] == r[k]);
                }
            }
        }
    }
}

/// One step of the search keeps the signs in order.
#[verifier::rlimit(50)]
#[verifier::rlimit(50)]
pub(crate) proof fn lemma_step_signs(
    orig: Seq<(usize, isize)>,
    s: Seq<(usize, isize)>,
    plan: Seq<Transfer<usize>>,
    j: int,
)
    requires
        signs_ok(orig, s, plan),
        ascending(s),
        none_settled(s),
        1 <= j < s.len(),
        opposite(s[0].1, s[j].1),
    ensures
        signs_ok(orig, pair_off(s, j), plan.push(pay_off(s, j))),
{
    let head = s[0];
    let x = s[j];
    let front = s.subrange(1, j);
    let back = s.subrange(j + 1, s.len() as int);
    let rest = front + back;
    let amount = x.1 + head.1;
    let next = pair_off(s, j);
    let plan2 = plan.push(pay_off(s, j));
    assert(magnitude(head.1) <= magnitude(x.1));
    assert(head.1 != 0 && x.1 != 0);
    assert forall|k: int| 0 <= k < rest.len() implies (#[trigger] rest[k]).0 != x.0 && rest[k].0
        != head.0 && agrees(rest[k].1, balance_of(orig, rest[k].0)) by {
        let k2 = if k < front.len() {
            k + 1
        } else {
            k + 2
        };
        assert(rest[k] == s[k2]);
    }
    assert forall|i: int, k: int| 0 <= i < k < rest.len() implies (#[trigger] rest[i]).0 != (
    #[trigger] rest[k]).0 by {
        let i2 = if i < front.len() {
            i + 1
        } else {
            i + 2
        };
        let k2 = if k < front.len() {
            k + 1
        } else {
            k + 2
        };
        assert(rest[i] == s[i2] && rest[k] == s[k2]);
    }
    if amount != 0 {
        let e = (x.0, amount as isize);
        lemma_place_distinct(rest, e);
        let p = lemma_place_insert(rest, e);
        assert forall|k: int| 0 <= k < next.len() implies agrees(
            (#[trigger] next[k]).1,
            balance_of(orig, next[k].0),
        ) by {
            if k != p {
                let k2 = if k < p {
                    k
                } else {
                    k - 1
                };
                assert(next[k] == rest[k2]);
            }
        }
    }
    assert forall|k: int| 0 <= k < plan2.len() implies agrees(
        (#[trigger] plan2[k]).amt,
        balance_of(orig, plan2[k].from),
    ) && agrees(plan2[k].amt, -balance_of(orig, plan2[k].to)) by {
        if k < plan.len() {
            assert(plan2[k] == plan[k]);
        }
    }
}

/// One step of the search keeps the state in order.
pub(crate) proof fn lemma_step(
    orig: Seq<(usize, isize)>,
    s: Seq<(usize, isize)>,
    plan: Seq<Transfer<usize>>,
    j: int,
)
    requires
        state_ok(orig, s, plan),
        1 <= j < s.len(),
        opposite(s[0].1, s[j].1),
    ensures
        state_ok(orig, pair_off(s, j), plan.push(pay_off(s, j))),
{
    let head = s[0];
    let x = s[j];
    let front = s.subrange(1, j);
    let back = s.subrange(j + 1, s.len() as int);
    let rest = front + back;
    let amount = x.1 + head.1;
    let next = pair_off(s, j);
    let plan2 = plan.push(pay_off(s, j));
    assert(magnitude(head.1) <= magnitude(x.1));
    assert(head.1 != 0 && x.1 != 0);
    assert(s =~= seq![head] + front + seq![x] + back);
    assert forall|i: int, k: int| 0 <= i <= k < rest.len() implies magnitude(
        #[trigger] rest[i].1,
    ) <= magnitude(#[trigger] rest[k].1) by {
        let i2 = if i < front.len() {
            i + 1
        } else {
            i + 2
        };
        let k2 = if k < front.len() {
            k + 1
        } else {
            k + 2
        };
        assert(rest[i] == s[i2] && rest[k] == s[k2]);
    }
    assert forall|k: int| 0 <= k < rest.len() implies (#[trigger] rest[k]).1 != 0 by {
        let k2 = if k < front.len() {
            k + 1
        } else {
            k + 2
        };
        assert(rest[k] == s[k2]);
    }
    if amount != 0 {
        lemma_place_order(rest, (x.0, amount as isize));
    }
    assert forall|id: usize| #[trigger]
        net(plan2, id) + balance_of(next, id) == balance_of(orig, id) && total(next) == 0 by {
        lemma_sums_concat(seq![head] + front + seq![x], back, id);
        lemma_sums_concat(seq![head] + front, seq![x], id);
        lemma_sums_concat(seq![head], front, id);
        lemma_sums_concat(front, back, id);
        lemma_sums_one(head, id);
        lemma_sums_one(x, id);
        if amount != 0 {
            lemma_place_sums(rest, (x.0, amount as isize), id);
        }
        assert(plan2.drop_last() =~= plan);
        assert(net(plan, id) + balance_of(s, id) == balance_of(orig, id));
    }
    assert(net(plan2, 0) + balance_of(next, 0) == balance_of(orig, 0) && total(next) == 0);
    assert forall|k: int| 0 <= k < plan2.len() implies (#[trigger] plan2[k]).amt != 0 && plan2[k].amt
        > isize::MIN by {
        if k < plan.len() {
            assert(plan2[k] == plan[k]);
        }
    }
    if distinct_ids(orig) {
        lemma_step_signs(orig, s, plan, j);
    }
    lemma_pair_off_len(s, j);
}

/// The search ends on a complete plan, and every complete plan that it
/// holds leaves no balance open.
pub(crate) proof fn lemma_search(
    orig: Seq<(usize, isize)>,
    s: Seq<(usize, isize)>,
    plan: Seq<Transfer<usize>>,
    best: Seq<Transfer<usize>>,
    found: bool,
    enough: nat,
)
    requires
        state_ok(orig, s, plan),
        found ==> state_ok(orig, Seq::empty(), best),
    ensures
        search(s, plan, best, found, enough).1,
        state_ok(orig, Seq::empty(), search(s, plan, best, found, enough).0),
    decreases s.len(), 1int, 0int,
{
    if found && (plan.len() >= best.len() || best.len() <= enough) {
    } else if s.len() == 0 {
        assert(s =~= Seq::empty());
    } else {
        lemma_partner(s);
        lemma_try(orig, s, 1, plan, best, found, enough);
    }
}

/// The same for the part of the search that tries the partners from `j` on.
pub(crate) proof fn lemma_try(
    orig: Seq<(usize, isize)>,
    s: Seq<(usize, isize)>,
    j: int,
    plan: Seq<Transfer<usize>>,
    best: Seq<Transfer<usize>>,
    found: bool,
    enough: nat,
)
    requires
        state_ok(orig, s, plan),
        1 <= j <= s.len(),
        found ==> state_ok(orig, Seq::empty(), best),
        found || exists|k: int| j <= k < s.len() && opposite(s[0].1, #[trigger] s[k].1),
    ensures
        try_partners(s, j, plan, best, found, enough).1,
        state_ok(orig, Seq::empty(), try_partners(s, j, plan, best, found, enough).0),
    decreases s.len(), 0int, s.len() - j,
{
    if j < s.len() {
        if opposite(s[0].1, s[j].1) {
            lemma_pair_off_len(s, j);
            lemma_step(orig, s, plan, j);
            lemma_search(orig, pair_off(s, j), plan.push(pay_off(s, j)), best, found, enough);
            let r = search(pair_off(s, j), plan.push(pay_off(s, j)), best, found, enough);
            lemma_try(orig, s, j + 1, plan, r.0, r.1, enough);
        } else {
            lemma_try(orig, s, j + 1, plan, best, found, enough);
        }
    }
}

/// Turning the transfers of a plan changes nothing in what the plan takes
/// from a participant.
pub(crate) proof fn lemma_normalised_net(plan: Seq<Transfer<usize>>, id: usize)
    requires
        forall|k: int| 0 <= k < plan.len() ==> (#[trigger] plan[k]).amt > isize::MIN,
    ensures
        net(normalised(plan), id) == net(plan, id),
    decreases plan.len(),
{
    if plan.len() > 0 {
        assert(normalised(plan).drop_last() =~= normalised(plan.drop_last()));
        lemma_normalised_net(plan.drop_last(), id);
        assert(plan[plan.len() - 1].amt > isize::MIN);
    }
}

/// The plan that the search finds for balances that sum to zero settles
/// them: it takes from every participant what the balances hold under it.
/// Each of its transfers has a positive amount, and there is at least one
/// transfer less than there are open balances.
pub proof fn lemma_plan_settles(b: Seq<(usize, isize)>, enough: nat)
    requires
        total(b) == 0,
    ensures
        forall|id: usize| #[trigger] net(plan_within(b, enough), id) == balance_of(b, id),
        forall|k: int|
            0 <= k < plan_within(b, enough).len() ==> (#[trigger] plan_within(b, enough)[k]).amt
                > 0,
        plan_within(b, enough).len() <= arrange(b).len(),
        plan_within(b, enough).len() > 0 ==> plan_within(b, enough).len() < arrange(b).len(),
        state_ok(
            b,
            Seq::empty(),
            search(arrange(b), Seq::empty(), Seq::empty(), false, enough).0,
        ),
{
    let none = Seq::<Transfer<usize>>::empty();
    assert forall|id: usize| #[trigger] net(none, id) + balance_of(arrange(b), id) == balance_of(
        b,
        id,
    ) by {
        lemma_arrange(b, id);
    }
    lemma_arrange(b, 0);
    if distinct_ids(b) {
        assert(b =~= b.take(b.len() as int));
        lemma_arrange_signs(b, b);
        assert forall|k: int| 0 <= k < arrange(b).len() implies agrees(
            (#[trigger] arrange(b)[k]).1,
            balance_of(b, arrange(b)[k].0),
        ) by {
            let i = choose|i: int| 0 <= i < b.len() && b[i] == arrange(b)[k];
            lemma_balance_at(b, i);
        }
    }
    lemma_search(b, arrange(b), none, none, false, enough);
    let raw = search(arrange(b), none, none, false, enough).0;
    let plan = plan_within(b, enough);
    assert forall|id: usize| #[trigger] net(plan, id) == balance_of(b, id) by {
        lemma_normalised_net(raw, id);
        assert(net(raw, id) + balance_of(Seq::empty(), id) == balance_of(b, id));
    }
    assert forall|k: int| 0 <= k < plan.len() implies (#[trigger] plan[k]).amt > 0 by {
        assert(raw[k].amt != 0);
    }
}

/// In a plan whose transfers all go from a positive balance to a negative
/// one, a participant pays only where its balance is positive and is paid
/// only where it is negative.
pub(crate) proof fn lemma_one_way(orig: Seq<(usize, isize)>, plan: Seq<Transfer<usize>>, id: usize)
    requires
        forall|k: int|
            0 <= k < plan.len() ==> balance_of(orig, (#[trigger] plan[k]).from) > 0 && balance_of(
                orig,
                plan[k].to,
            ) < 0,
    ensures
        net(plan, id) == paid(plan, id) - received(plan, id),
        balance_of(orig, id) <= 0 ==> paid(plan, id) == 0,
        balance_of(orig, id) >= 0 ==> received(plan, id) == 0,
    decreases plan.len(),
{
    if plan.len() > 0 {
        let front = plan.drop_last();
        assert forall|k: int| 0 <= k < front.len() implies balance_of(
            orig,
            (#[trigger] front[k]).from,
        ) > 0 && balance_of(orig, front[k].to) < 0 by {
            assert(front[k] == plan[k]);
        }
        lemma_one_way(orig, front, id);
        assert(balance_of(orig, plan[plan.len() - 1].from) > 0);
    }
}

/// Every transfer of the plan found for balances of distinct participants
/// goes from a participant whose balance is positive to one whose balance is
/// negative. So the plan takes from no participant more than its positive
/// balance and gives to none more than the magnitude of its negative one: a
/// participant with a positive balance pays exactly that and is paid
/// nothing, one with a negative balance is paid exactly its magnitude and
/// pays nothing.
pub proof fn lemma_plan_conserves(b: Seq<(usize, isize)>, enough: nat, id: usize)
    requires
        total(b) == 0,
        distinct_ids(b),
    ensures
        forall|k: int|
            0 <= k < plan_within(b, enough).len() ==> balance_of(
                b,
                (#[trigger] plan_within(b, enough)[k]).from,
            ) > 0 && balance_of(b, plan_within(b, enough)[k].to) < 0,
        balance_of(b, id) >= 0 ==> paid(plan_within(b, enough), id) == balance_of(b, id)
            && received(plan_within(b, enough), id) == 0,
        balance_of(b, id) <= 0 ==> received(plan_within(b, enough), id) == -balance_of(b, id)
            && paid(plan_within(b, enough), id) == 0,
{
    lemma_plan_settles(b, enough);
    let raw = search(arrange(b), Seq::empty(), Seq::empty(), false, enough).0;
    let plan = plan_within(b, enough);
    assert forall|k: int| 0 <= k < plan.len() implies balance_of(b, (#[trigger] plan[k]).from) > 0
        && balance_of(b, plan[k].to) < 0 by {
        assert(raw[k].amt != 0);
        assert(agrees(raw[k].amt, balance_of(b, raw[k].from)));
    }
    lemma_one_way(b, plan, id);
    assert(net(plan, id) == balance_of(b, id));
}

/// The search never gives up a complete plan for a longer one.
pub(crate) proof fn lemma_search_keeps(
    s: Seq<(usize, isize)>,
    plan: Seq<Transfer<usize>>,
    best: Seq<Transfer<usize>>,
    found: bool,
    enough: nat,
)
    requires
        found,
    ensures
        search(s, plan, best, found, enough).1,
        search(s, plan, best, found, enough).0.len() <= best.len(),
    decreases s.len(), 1int, 0int,
{
    if found && (plan.len() >= best.len() || best.len() <= enough) {
    } else if s.len() == 0 {
    } else {
        lemma_try_keeps(s, 1, plan, best, found, enough);
    }
}

/// The same for the part of the search that tries the partners from `j` on.
pub(crate) proof fn lemma_try_keeps(
    s: Seq<(usize, isize)>,
    j: int,
    plan: Seq<Transfer<usize>>,
    best: Seq<Transfer<usize>>,
    found: bool,
    enough: nat,
)
    requires
        found,
    ensures
        try_partners(s, j, plan, best, found, enough).1,
        try_partners(s, j, plan, best, found, enough).0.len() <= best.len(),
    decreases s.len(), 0int, s.len() - j,
{
    if 1 <= j < s.len() {
        if opposite(s[0].1, s[j].1) {
            lemma_pair_off_len(s, j);
            lemma_search_keeps(pair_off(s, j), plan.push(pay_off(s, j)), best, found, enough);
            let r = search(pair_off(s, j), plan.push(pay_off(s, j)), best, found, enough);
            lemma_try_keeps(s, j + 1, plan, r.0, r.1, enough);
        } else {
            lemma_try_keeps(s, j + 1, plan, best, found, enough);
        }
    }
}

/// The search from a state ends on a plan that has no more than `enough`
/// transfers or is no longer than the plan of any order in which the state
/// can be paid off.
pub(crate) proof fn lemma_search_least(
    s: Seq<(usize, isize)>,
    plan: Seq<Transfer<usize>>,
    best: Seq<Transfer<usize>>,
    found: bool,
    enough: nat,
    choices: Seq<int>,
)
    requires
        settles_in(s, choices),
    ensures
        search(s, plan, best, found, enough).1,
        search(s, plan, best, found, enough).0.len() <= plan.len() + choices.len() || search(
            s,
            plan,
            best,
            found,
            enough,
        ).0.len() <= enough,
    decreases s.len(), 1int, 0int,
{
    if found && (plan.len() >= best.len() || best.len() <= enough) {
    } else if s.len() == 0 {
    } else {
        lemma_try_least(s, 1, plan, best, found, enough, choices);
    }
}

/// The same for the part of the search that tries the partners from `j` on,
/// where the first choice of the order is still to come.
pub(crate) proof fn lemma_try_least(
    s: Seq<(usize, isize)>,
    j: int,
    plan: Seq<Transfer<usize>>,
    best: Seq<Transfer<usize>>,
    found: bool,
    enough: nat,
    choices: Seq<int>,
)
    requires
        s.len() > 0,
        settles_in(s, choices),
        1 <= j <= choices[0],
    ensures
        try_partners(s, j, plan, best, found, enough).1,
        try_partners(s, j, plan, best, found, enough).0.len() <= plan.len() + choices.len()
            || try_partners(s, j, plan, best, found, enough).0.len() <= enough,
    decreases s.len(), 0int, s.len() - j,
{
    if opposite(s[0].1, s[j].1) {
        lemma_pair_off_len(s, j);
        let plan2 = plan.push(pay_off(s, j));
        let r = search(pair_off(s, j), plan2, best, found, enough);
        if choices[0] == j {
            lemma_search_least(pair_off(s, j), plan2, best, found, enough, choices.drop_first());
            lemma_try_keeps(s, j + 1, plan, r.0, r.1, enough);
        } else {
            lemma_try_least(s, j + 1, plan, r.0, r.1, enough, choices);
        }
    } else {
        lemma_try_least(s, j + 1, plan, best, found, enough, choices);
    }
}

/// The plan found for the balances `b` has no more than `enough` transfers,
/// or no more than any order of paying off the smallest open balance
/// against a balance of the opposite sign takes to settle them. The plan of
/// the full search is as short as any such order.
pub proof fn lemma_plan_least(b: Seq<(usize, isize)>, enough: nat, choices: Seq<int>)
    requires
        settles_in(arrange(b), choices),
    ensures
        plan_within(b, enough).len() <= choices.len() || plan_within(b, enough).len() <= enough,
        exact_plan(b).len() <= choices.len(),
{
    lemma_search_least(arrange(b), Seq::empty(), Seq::empty(), false, enough, choices);
    lemma_search_least(arrange(b), Seq::empty(), Seq::empty(), false, 0, choices);
}

/// The plan found for given balances is one plan: two plans that both are
/// the plan found for the same balances, with the same bound, are equal.
pub proof fn lemma_plan_unique(
    b: Seq<(usize, isize)>,
    enough: nat,
    first: Seq<Transfer<usize>>,
    second: Seq<Transfer<usize>>,
)
    requires
        first == plan_within(b, enough),
        second == plan_within(b, enough),
    ensures
        first == second,
{
}

/// What two plans one after the other take, pay and are paid is the sum of
/// what each does.
pub(crate) proof fn lemma_sums_append(a: Seq<Transfer<usize>>, b: Seq<Transfer<usize>>, id: usize)
    ensures
        net(a + b, id) == net(a, id) + net(b, id),
        paid(a + b, id) == paid(a, id) + paid(b, id),
        received(a + b, id) == received(a, id) + received(b, id),
    decreases b.len(),
{
    if b.len() == 0 {
        assert(a + b =~= a);
    } else {
        assert((a + b).drop_last() =~= a + b.drop_last());
        lemma_sums_append(a, b.drop_last(), id);
    }
}

} // verus!
