use debtor::flow::{
    compute_repayments_approx, decode_routes, fits_flow_network, Hop, Node, MAX_PARTICIPANTS,
};
use debtor::transfer::Transfer;

fn triples(plan: &[Transfer<usize>]) -> Vec<(usize, usize, isize)> {
    plan.iter().map(|t| (t.from, t.to, t.amt)).collect()
}

fn check_settles(balances: &[isize], plan: &[Transfer<usize>]) {
    let mut left: Vec<isize> = balances.to_vec();
    for t in plan {
        assert!(t.amt > 0);
        assert!(t.from < balances.len());
        assert!(t.to < balances.len());
        left[t.from] -= t.amt;
        left[t.to] += t.amt;
    }
    for i in 0..balances.len() {
        assert_eq!(left[i], 0);
    }
}

#[test]
fn approx_plan_of_one_pair() {
    let (plan, detours, cost) = compute_repayments_approx(&vec![10, -10]);
    assert_eq!(triples(&plan), vec![(0, 1, 10)]);
    assert_eq!(detours, 0);
    assert_eq!(cost, 10);
}

#[test]
fn approx_plan_comes_with_the_cost_of_the_flow() {
    let (_, _, cost) = compute_repayments_approx(&vec![10, 20, -15, -15]);
    assert_eq!(cost, 30);
    let (_, _, cost) = compute_repayments_approx(&vec![]);
    assert_eq!(cost, 0);
}

#[test]
fn approx_plan_settles_the_balances() {
    let cases: Vec<Vec<isize>> = vec![
        vec![10, -10, 15, -15],
        vec![10, 20, -15, -15],
        vec![5, -2, -3],
        vec![100, -30, -30, -40, 25, -25, 60, -10, -50],
    ];
    for balances in cases {
        let (plan, detours, _) = compute_repayments_approx(&balances);
        assert_eq!(detours, 0);
        check_settles(&balances, &plan);
    }
}

#[test]
fn approx_plan_of_nothing() {
    let (plan, detours, _) = compute_repayments_approx(&vec![]);
    assert_eq!(plan.len(), 0);
    assert_eq!(detours, 0);
    let (plan, _, _) = compute_repayments_approx(&vec![0, 0]);
    assert_eq!(plan.len(), 0);
}

#[test]
fn approx_plan_moves_the_whole_positive_balance() {
    let balances = vec![7, -3, -4, 12, -6, -6];
    let (plan, _, _) = compute_repayments_approx(&balances);
    let moved: isize = plan.iter().map(|t| t.amt).sum();
    assert_eq!(moved, 19);
    check_settles(&balances, &plan);
}

#[test]
fn routes_are_read_hop_by_hop() {
    let direct = vec![
        Hop { from: Node::Source, to: Node::Participant(0), amount: 4 },
        Hop { from: Node::Participant(0), to: Node::Participant(1), amount: 4 },
        Hop { from: Node::Participant(1), to: Node::Sink, amount: 4 },
    ];
    let detour = vec![
        Hop { from: Node::Source, to: Node::Participant(2), amount: 3 },
        Hop { from: Node::Participant(2), to: Node::Participant(0), amount: 3 },
        Hop { from: Node::Participant(0), to: Node::Participant(1), amount: 3 },
        Hop { from: Node::Participant(1), to: Node::Sink, amount: 3 },
    ];
    let (plan, detours) = decode_routes(&vec![direct, detour]);
    assert_eq!(triples(&plan), vec![(0, 1, 4), (2, 0, 3), (0, 1, 3)]);
    assert_eq!(detours, 1);
}

#[test]
fn hops_that_move_nothing_are_no_transfers() {
    let route = vec![
        Hop { from: Node::Participant(0), to: Node::Participant(1), amount: 0 },
        Hop { from: Node::Participant(0), to: Node::Participant(1), amount: u32::MAX },
        Hop { from: Node::Participant(0), to: Node::Participant(1), amount: 0x7fff_ffff },
        Hop { from: Node::Source, to: Node::Sink, amount: 9 },
    ];
    let (plan, detours) = decode_routes(&vec![route, vec![]]);
    assert_eq!(triples(&plan), vec![(0, 1, u32::MAX as isize), (0, 1, 0x7fff_ffff)]);
    assert_eq!(detours, 2);
}

#[test]
fn balances_that_fit_the_network() {
    assert!(fits_flow_network(&vec![]));
    assert!(fits_flow_network(&vec![i32::MAX as isize, -(i32::MAX as isize)]));
    assert!(!fits_flow_network(&vec![i32::MAX as isize + 1]));
    assert!(!fits_flow_network(&vec![i32::MIN as isize]));
    assert!(fits_flow_network(&vec![0; MAX_PARTICIPANTS]));
    assert!(!fits_flow_network(&vec![0; MAX_PARTICIPANTS + 1]));
}

#[test]
fn a_full_edge_sends_the_rest_on_a_detour() {
    let balances = vec![2_000_000_000, -2_000_000_000, 1, -1];
    let (plan, detours, _) = compute_repayments_approx(&balances);
    assert!(detours >= 1);
    check_settles(&balances, &plan);
    let direct: isize =
        plan.iter().filter(|t| t.from == 0 && t.to == 1).map(|t| t.amt).sum();
    assert_eq!(direct, 1_000_000_000);
    // The participants on the detour hand on more than their own balance.
    let mut paid = vec![0isize; balances.len()];
    for t in &plan {
        paid[t.from] += t.amt;
    }
    assert!((0..balances.len()).any(|i| paid[i] > balances[i].max(0)));
}

#[test]
fn direct_routes_keep_to_the_balances() {
    let balances: Vec<isize> = vec![5, -3, -2];
    let route = |from: usize, to: usize, amount: u32| {
        vec![
            Hop { from: Node::Source, to: Node::Participant(from), amount },
            Hop { from: Node::Participant(from), to: Node::Participant(to), amount },
            Hop { from: Node::Participant(to), to: Node::Sink, amount },
        ]
    };
    let (plan, detours) = decode_routes(&vec![route(0, 1, 3), route(0, 2, 2)]);
    assert_eq!(triples(&plan), vec![(0, 1, 3), (0, 2, 2)]);
    assert_eq!(detours, 0);
    check_settles(&balances, &plan);
    let paid: isize = plan.iter().filter(|t| t.from == 0).map(|t| t.amt).sum();
    assert_eq!(paid, 5);
}

#[test]
fn the_network_takes_no_more_participants_than_the_solver_numbers() {
    assert_eq!(MAX_PARTICIPANTS, 20_723);
    let n = MAX_PARTICIPANTS as u64;
    assert!(5 * (n * n + n) + 4 <= i32::MAX as u64);
}
