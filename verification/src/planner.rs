//! The exact planner: a search over the orders in which the balances of one
//! zero-sum block can be paid off, for a plan of the fewest transfers.

use vstd::prelude::*;
use crate::fewest::{lemma_exact_plan_is_least, settles_block};
use crate::search::{
    arrange, balance_of, distinct_ids, exact_plan, lemma_pair_off_len, lemma_place_at,
    lemma_plan_settles, magnitude, net, none_settled, normalised, opposite, pair_off, place,
    plan_within, search, total, try_partners,
};
use crate::transfer::Transfer;

verus! {

/// The absolute value of an amount, in a type that holds it for every
/// amount.
fn magnitude_of(a: isize) -> (r: i128)
    ensures
        r == magnitude(a),
{
    if a < 0 {
        -(a as i128)
    } else {
        a as i128
    }
}

/// Puts the balance `e` into the list behind every balance that is not
/// greater in magnitude.
fn place_balance(s: &mut Vec<(usize, isize)>, e: (usize, isize))
    ensures
        final(s)@ == place(old(s)@, e),
{
    let mut p = s.len();
    let limit = magnitude_of(e.1);
    while p > 0 && magnitude_of(s[p - 1].1) > limit
        invariant
            p <= s.len(),
            s@ == old(s)@,
            limit == magnitude(e.1),
            forall|k: int| p <= k < s.len() ==> magnitude(#[trigger] s@[k].1) > magnitude(e.1),
        decreases p,
    {
        p -= 1;
    }
    proof {
        lemma_place_at(s@, e, p as int);
    }
    s.insert(p, e);
}

/// The balances that are not zero, in ascending order of magnitude.
fn arrange_balances(balances: &Vec<(usize, isize)>) -> (r: Vec<(usize, isize)>)
    ensures
        r@ == arrange(balances@),
{
    let mut out: Vec<(usize, isize)> = Vec::new();
    let mut k: usize = 0;
    while k < balances.len()
        invariant
            k <= balances.len(),
            out@ == arrange(balances@.take(k as int)),
        decreases balances.len() - k,
    {
        proof {
            assert(balances@.take(k + 1).drop_last() =~= balances@.take(k as int));
        }
        let e = balances[k];
        if e.1 != 0 {
            place_balance(&mut out, e);
        }
        k += 1;
    }
    proof {
        assert(balances@.take(balances.len() as int) =~= balances@);
    }
    out
}

/// Pays the first balance of the list off against the one at `j`.
fn pair_off_balances(s: &Vec<(usize, isize)>, j: usize) -> (r: Vec<(usize, isize)>)
    requires
        1 <= j < s.len(),
        opposite(s[0].1, s[j as int].1),
    ensures
        r@ == pair_off(s@, j as int),
{
    let mut rest: Vec<(usize, isize)> = Vec::new();
    let mut k: usize = 1;
    while k < s.len()
        invariant
            1 <= k <= s.len(),
            1 <= j < s.len(),
            rest@ == if k <= j {
                s@.subrange(1, k as int)
            } else {
                s@.subrange(1, j as int) + s@.subrange(j + 1, k as int)
            },
        decreases s.len() - k,
    {
        if k != j {
            rest.push(s[k]);
        }
        k += 1;
        proof {
            if k <= j {
                assert(rest@ =~= s@.subrange(1, k as int));
            } else {
                assert(rest@ =~= s@.subrange(1, j as int) + s@.subrange(j + 1, k as int));
            }
        }
    }
    let amount = s[j].1 + s[0].1;
    if amount != 0 {
        place_balance(&mut rest, (s[j].0, amount));
    }
    rest
}

/// A copy of the plan.
fn copy_plan(plan: &Vec<Transfer<usize>>) -> (r: Vec<Transfer<usize>>)
    ensures
        r@ == plan@,
{
    let mut out: Vec<Transfer<usize>> = Vec::new();
    let mut k: usize = 0;
    while k < plan.len()
        invariant
            k <= plan.len(),
            out@ == plan@.take(k as int),
        decreases plan.len() - k,
    {
        let t = &plan[k];
        out.push(Transfer { from: t.from, to: t.to, amt: t.amt });
        k += 1;
        proof {
            assert(out@ =~= plan@.take(k as int));
        }
    }
    proof {
        assert(plan@.take(plan.len() as int) =~= plan@);
    }
    out
}

/// Searches from the list `s`, with the transfers in `plan` made so far:
/// `best` and `found` come back as the search leaves them, `plan` as it was.
fn search_plans(
    s: &Vec<(usize, isize)>,
    plan: &mut Vec<Transfer<usize>>,
    best: &mut Vec<Transfer<usize>>,
    found: &mut bool,
    enough: usize,
)
    ensures
        (final(best)@, *final(found)) == search(
            s@,
            old(plan)@,
            old(best)@,
            *old(found),
            enough as nat,
        ),
        final(plan)@ == old(plan)@,
    decreases s.len(),
{
    if *found && (plan.len() >= best.len() || best.len() <= enough) {
        return ;
    }
    if s.len() == 0 {
        *best = copy_plan(plan);
        *found = true;
        return ;
    }
    let ghost plan0 = plan@;
    let ghost goal = try_partners(s@, 1, plan@, best@, *found, enough as nat);
    let mut j: usize = 1;
    while j < s.len()
        invariant
            1 <= j <= s.len(),
            plan@ == plan0,
            try_partners(s@, j as int, plan0, best@, *found, enough as nat) == goal,
        decreases s.len() - j,
    {
        if (s[0].1 < 0) != (s[j].1 < 0) {
            let next = pair_off_balances(s, j);
            proof {
                lemma_pair_off_len(s@, j as int);
            }
            plan.push(Transfer { from: s[0].0, to: s[j].0, amt: s[0].1 });
            search_plans(&next, plan, best, found, enough);
            plan.pop();
            proof {
                assert(plan@ =~= plan0);
            }
        }
        j += 1;
    }
}

/// A plan for one block of balances that sum to zero, found by the search
/// that a plan of no more than `enough` transfers ends. A transfer goes from
/// a participant whose balance is positive to one whose balance is negative.
pub fn construct_plan_within(balances: Vec<(usize, isize)>, enough: usize) -> (plan: Vec<
    Transfer<usize>,
>)
    requires
        total(balances@) == 0,
    ensures
        plan@ == plan_within(balances@, enough as nat),
        forall|id: usize| #[trigger] net(plan@, id) == balance_of(balances@, id),
        forall|k: int| 0 <= k < plan.len() ==> (#[trigger] plan[k]).amt > 0,
{
    let s = arrange_balances(&balances);
    let mut current: Vec<Transfer<usize>> = Vec::new();
    let mut best: Vec<Transfer<usize>> = Vec::new();
    let mut found = false;
    search_plans(&s, &mut current, &mut best, &mut found, enough);
    proof {
        lemma_plan_settles(balances@, enough as nat);
    }
    let mut plan: Vec<Transfer<usize>> = Vec::new();
    let mut k: usize = 0;
    while k < best.len()
        invariant
            k <= best.len(),
            plan@ == normalised(best@.take(k as int)),
            forall|i: int| 0 <= i < best.len() ==> (#[trigger] best[i]).amt > isize::MIN,
        decreases best.len() - k,
    {
        let mut t = Transfer { from: best[k].from, to: best[k].to, amt: best[k].amt };
        t.normalise();
        plan.push(t);
        k += 1;
        proof {
            assert(plan@ =~= normalised(best@.take(k as int)));
        }
    }
    proof {
        assert(best@.take(best.len() as int) =~= best@);
    }
    plan
}

/// A plan of the fewest transfers for one block of balances that sum to
/// zero: the plan of the full search. Where the balances are of distinct
/// participants and none is settled, no plan among these participants
/// settles them with fewer transfers.
pub fn construct_plan(balances: Vec<(usize, isize)>) -> (plan: Vec<Transfer<usize>>)
    requires
        total(balances@) == 0,
    ensures
        plan@ == exact_plan(balances@),
        forall|id: usize| #[trigger] net(plan@, id) == balance_of(balances@, id),
        forall|k: int| 0 <= k < plan.len() ==> (#[trigger] plan[k]).amt > 0,
        none_settled(balances@) && distinct_ids(balances@) ==> forall|
            other: Seq<Transfer<usize>>,
        | #[trigger]
            settles_block(balances@, other) ==> plan.len() <= other.len(),
{
    proof {
        if none_settled(balances@) && distinct_ids(balances@) {
            assert forall|other: Seq<Transfer<usize>>| #[trigger]
                settles_block(balances@, other) implies exact_plan(balances@).len()
                <= other.len() by {
                lemma_exact_plan_is_least(balances@, other);
            }
        }
    }
    construct_plan_within(balances, 0)
}

} // verus!
