use debtor::exact::{block_pairs, compute_repayments_exact};
use debtor::strategy::{choose_strategy, PlanError, Strategy};
use debtor::bitset::BitSet64;
use debtor::planner::{construct_plan, construct_plan_within};
use debtor::transfer::Transfer;

fn triples(plan: &[Transfer<usize>]) -> Vec<(usize, usize, isize)> {
    plan.iter().map(|t| (t.from, t.to, t.amt)).collect()
}

fn check_settles(balances: &[isize], plan: &[Transfer<usize>]) {
    let mut left: Vec<isize> = balances.to_vec();
    let mut paid = vec![0isize; balances.len()];
    let mut received = vec![0isize; balances.len()];
    for t in plan {
        assert!(t.amt > 0);
        assert_ne!(t.from, t.to);
        left[t.from] -= t.amt;
        left[t.to] += t.amt;
        paid[t.from] += t.amt;
        received[t.to] += t.amt;
    }
    for i in 0..balances.len() {
        assert_eq!(left[i], 0);
        assert!(paid[i] <= balances[i].max(0));
        assert!(received[i] <= (-balances[i]).max(0));
    }
}

#[test]
fn exact_plan_of_two_pairs() {
    let balances = vec![10, -10, 15, -15];
    let plan = compute_repayments_exact(&balances).unwrap().0;
    assert_eq!(triples(&plan), vec![(2, 3, 15), (0, 1, 10)]);
    check_settles(&balances, &plan);
}

#[test]
fn exact_plan_of_one_block_of_four() {
    let balances = vec![10, 20, -15, -15];
    let plan = compute_repayments_exact(&balances).unwrap().0;
    assert_eq!(plan.len(), 3);
    assert_eq!(triples(&plan), vec![(0, 2, 10), (1, 2, 5), (1, 3, 15)]);
    check_settles(&balances, &plan);
}

#[test]
fn exact_plan_is_the_same_on_every_run() {
    let balances = vec![7, -3, -4, 12, -6, -6, 5, -5, 3, -3];
    let first = compute_repayments_exact(&balances).unwrap().0;
    let second = compute_repayments_exact(&balances).unwrap().0;
    assert_eq!(triples(&first), triples(&second));
    check_settles(&balances, &first);
}

#[test]
fn exact_plan_conserves_every_balance() {
    let cases: Vec<Vec<isize>> = vec![
        vec![],
        vec![0],
        vec![0, 0, 0],
        vec![1, -1],
        vec![-1, 1],
        vec![5, -2, -3],
        vec![-5, 2, 3],
        vec![4, 4, -8],
        vec![3, 3, 3, -9],
        vec![6, -1, -2, -3],
        vec![2, 2, -1, -3],
        vec![9, -4, -5, 0, 7, -7, 1, 2, -3],
        vec![100, -30, -30, -40, 25, -25, 60, -10, -50],
    ];
    for balances in cases {
        let plan = compute_repayments_exact(&balances).unwrap().0;
        check_settles(&balances, &plan);
    }
}

#[test]
fn exact_plan_has_one_transfer_less_than_a_block_holds() {
    let plan = compute_repayments_exact(&vec![3, 3, 3, -9]).unwrap().0;
    assert_eq!(triples(&plan), vec![(0, 3, 3), (1, 3, 3), (2, 3, 3)]);
    let plan = compute_repayments_exact(&vec![6, -1, -2, -3]).unwrap().0;
    assert_eq!(triples(&plan), vec![(0, 1, 1), (0, 2, 2), (0, 3, 3)]);
}

#[test]
fn too_many_balances_are_refused() {
    let balances = vec![0isize; 64];
    assert_eq!(compute_repayments_exact(&balances), Err(PlanError::CapacityExceeded));
    let balances = vec![0isize; 200];
    assert_eq!(compute_repayments_exact(&balances), Err(PlanError::CapacityExceeded));
}

#[test]
fn construct_plan_pairs_the_smallest_balance_first() {
    let plan = construct_plan(vec![(7, 15), (9, -15)]);
    assert_eq!(triples(&plan), vec![(7, 9, 15)]);
    let plan = construct_plan(vec![(1, -20), (2, 5), (3, 15)]);
    assert_eq!(triples(&plan), vec![(2, 1, 5), (3, 1, 15)]);
    let plan = construct_plan(vec![(4, 10), (5, 20), (6, -15), (8, -15)]);
    assert_eq!(triples(&plan), vec![(4, 6, 10), (5, 6, 5), (5, 8, 15)]);
}

#[test]
fn construct_plan_finds_the_shorter_plan() {
    let plan = construct_plan(vec![(0, 2), (1, -3), (2, -2), (3, 3)]);
    assert_eq!(triples(&plan), vec![(0, 2, 2), (3, 1, 3)]);
    // Paying 3 off against -5 first would take four transfers.
    let plan = construct_plan(vec![(0, 3), (1, 4), (2, 5), (3, -5), (4, -7)]);
    assert_eq!(plan.len(), 3);
}

#[test]
fn construct_plan_skips_settled_balances() {
    assert_eq!(construct_plan(vec![]).len(), 0);
    assert_eq!(construct_plan(vec![(0, 0)]).len(), 0);
    let plan = construct_plan(vec![(0, 0), (1, 4), (2, 0), (3, -4)]);
    assert_eq!(triples(&plan), vec![(1, 3, 4)]);
}

#[test]
fn construct_plan_with_extreme_amounts() {
    let plan = construct_plan(vec![(0, isize::MAX), (1, -isize::MAX)]);
    assert_eq!(triples(&plan), vec![(0, 1, isize::MAX)]);
    let plan = construct_plan(vec![(0, isize::MIN), (1, isize::MAX), (2, 1)]);
    assert_eq!(triples(&plan), vec![(2, 0, 1), (1, 0, isize::MAX)]);
}

#[test]
fn pairs_of_a_block() {
    assert_eq!(block_pairs(&vec![7, 8, 9, 10], BitSet64(0b1010)), vec![(1, 8), (3, 10)]);
    assert_eq!(block_pairs(&vec![7, 8, 9, 10], BitSet64(0)), Vec::<(usize, isize)>::new());
}

#[test]
fn normalise_turns_a_negative_payment() {
    let mut t = Transfer { from: 1usize, to: 2usize, amt: -5 };
    t.normalise();
    assert_eq!((t.from, t.to, t.amt), (2, 1, 5));
    let mut t = Transfer { from: 1usize, to: 2usize, amt: 5 };
    t.normalise();
    assert_eq!((t.from, t.to, t.amt), (1, 2, 5));
    let mut t = Transfer { from: "a", to: "b", amt: 0 };
    t.normalise();
    assert_eq!((t.from, t.to, t.amt), ("a", "b", 0));
}

#[test]
fn strategy_follows_the_request() {
    assert_eq!(choose_strategy(true, true, 0), Err(PlanError::ConflictingMode));
    assert_eq!(choose_strategy(true, true, 100), Err(PlanError::ConflictingMode));
    assert_eq!(choose_strategy(true, false, 100), Ok(Strategy::Exact));
    assert_eq!(choose_strategy(false, true, 2), Ok(Strategy::Approximate));
    assert_eq!(choose_strategy(false, false, 20), Ok(Strategy::Exact));
    assert_eq!(choose_strategy(false, false, 21), Ok(Strategy::Approximate));
}

#[test]
fn exact_plan_has_a_transfer_for_every_balance_but_one_of_each_block() {
    let cases: Vec<(Vec<isize>, usize)> = vec![
        (vec![10, -10, 15, -15], 2),
        (vec![10, 20, -15, -15], 3),
        (vec![1, -1, 2, -2, 3, -3], 3),
        (vec![1, 2, -3, 4, 5, -9, 7, -7], 5),
        (vec![5, -2, -3, 0, 6, -1, -5, 8, -8, 0, 2, -2], 6),
    ];
    for (balances, transfers) in cases {
        let plan = compute_repayments_exact(&balances).unwrap().0;
        assert_eq!(plan.len(), transfers);
        check_settles(&balances, &plan);
    }
}

#[test]
fn exact_plan_leaves_alone_what_does_not_sum_to_zero() {
    let plan = compute_repayments_exact(&vec![5, 1, -1]).unwrap().0;
    assert_eq!(triples(&plan), vec![(1, 2, 1)]);
    let plan = compute_repayments_exact(&vec![1, -1, 5]).unwrap().0;
    assert_eq!(plan.len(), 0);
}

fn next_random(state: &mut u64) -> u64 {
    *state = state.wrapping_mul(6364136223846793005).wrapping_add(1442695040888963407);
    *state >> 33
}

#[test]
fn exact_plan_settles_random_zero_sum_inputs() {
    let mut state = 3u64;
    for round in 0..50 {
        let len = round % 10;
        let mut balances: Vec<isize> = Vec::new();
        for _ in 1..len {
            balances.push((next_random(&mut state) % 41) as isize - 20);
        }
        if len > 0 {
            let sum: isize = balances.iter().sum();
            balances.push(-sum);
        }
        let plan = compute_repayments_exact(&balances).unwrap().0;
        check_settles(&balances, &plan);
        let open = balances.iter().filter(|b| **b != 0).count();
        assert!(plan.len() <= open.saturating_sub(1));
    }
}

#[test]
fn a_plan_that_is_short_enough_ends_the_search() {
    let block = vec![(0, 3), (1, 4), (2, 5), (3, -5), (4, -7)];
    // The first complete plan pays 3 off against -5 and takes four
    // transfers; a search that wants fewer goes on to the plan of three.
    let first = construct_plan_within(block.clone(), 5);
    assert_eq!(triples(&first), vec![(0, 3, 3), (1, 3, 2), (1, 4, 2), (2, 4, 5)]);
    let same = construct_plan_within(block.clone(), 4);
    assert_eq!(triples(&same), triples(&first));
    let better = construct_plan_within(block.clone(), 3);
    assert_eq!(triples(&better), vec![(0, 4, 3), (1, 4, 4), (2, 3, 5)]);
    let full = construct_plan(block);
    assert_eq!(triples(&full), triples(&better));
}

#[test]
fn a_large_block_is_settled_quickly() {
    let mut balances: Vec<isize> = Vec::new();
    let mut sum = 0isize;
    for i in 0..15isize {
        let v = (1000 + 37 * i + i * i) * if i % 2 == 0 { 1 } else { -1 };
        balances.push(v);
        sum += v;
    }
    balances.push(-sum);
    let plan = compute_repayments_exact(&balances).unwrap().0;
    check_settles(&balances, &plan);
    assert!(plan.len() <= 15);
}

// The greatest number of zero-sum groups into which the balances at the
// positions of `rest` can be split.
fn most_groups(values: &[isize], rest: u64) -> usize {
    if rest == 0 {
        return 0;
    }
    let low = rest & rest.wrapping_neg();
    let others = rest & !low;
    let mut best = 0;
    let mut sub = others;
    loop {
        let group = sub | low;
        let sum: isize =
            (0..values.len()).filter(|i| group & (1u64 << i) != 0).map(|i| values[i]).sum();
        if sum == 0 {
            let tail = rest & !group;
            let more = most_groups(values, tail);
            if tail == 0 || more > 0 {
                best = best.max(more + 1);
            }
        }
        if sub == 0 {
            break;
        }
        sub = (sub - 1) & others;
    }
    best
}

#[test]
fn full_search_takes_a_transfer_for_every_balance_but_one_of_each_group() {
    let mut state = 5u64;
    for round in 0..60 {
        let len = 2 + round % 7;
        let mut values: Vec<isize> = Vec::new();
        while values.len() + 1 < len {
            let v = (next_random(&mut state) % 15) as isize - 7;
            if v != 0 {
                values.push(v);
            }
        }
        let sum: isize = values.iter().sum();
        if sum == 0 {
            continue;
        }
        values.push(-sum);
        let block: Vec<(usize, isize)> =
            values.iter().enumerate().map(|(i, v)| (10 * i + 3, *v)).collect();
        let plan = construct_plan(block);
        let groups = most_groups(&values, (1u64 << values.len()) - 1);
        assert_eq!(plan.len(), values.len() - groups);
    }
}

#[test]
fn exact_plan_comes_with_the_number_of_blocks() {
    let (plan, blocks) = compute_repayments_exact(&vec![10, -10, 15, -15]).unwrap();
    assert_eq!(blocks, 2);
    assert_eq!(triples(&plan), vec![(2, 3, 15), (0, 1, 10)]);
    let (_, blocks) = compute_repayments_exact(&vec![10, 20, -15, -15]).unwrap();
    assert_eq!(blocks, 1);
    let (plan, blocks) = compute_repayments_exact(&vec![]).unwrap();
    assert_eq!((plan.len(), blocks), (0, 0));
}

#[test]
fn blocks_are_settled_from_the_last_position_down() {
    let (plan, blocks) = compute_repayments_exact(&vec![1, 2, -1, 3, -2, -3]).unwrap();
    assert_eq!(blocks, 3);
    assert_eq!(triples(&plan), vec![(3, 5, 3), (1, 4, 2), (0, 2, 1)]);
}
