//! Settlement as a minimum-cost flow: the network that stands for a list of
//! balances, the solver that routes it, and the transfers read off the routes.

use vstd::prelude::*;
use mcmf::{Capacity, Cost, GraphBuilder, Vertex};
use crate::search::{lemma_sums_append, paid, positive_part, received};
use crate::transfer::Transfer;

verus! {

/// An end of an edge: the virtual source, the virtual sink, or the
/// participant at a position of the balance list.
#[derive(Clone, Copy, Debug, PartialEq, Eq, Structural)]
pub enum Node {
    Source,
    Sink,
    Participant(usize),
}

/// A directed edge of the network.
#[derive(Clone, Copy, Debug, PartialEq, Eq, Structural)]
pub struct Edge {
    pub from: Node,
    pub to: Node,
    pub capacity: i32,
    pub cost: i32,
}

/// One edge of a route, with the amount that the route moves along it.
#[derive(Clone, Copy, Debug, PartialEq, Eq, Structural)]
pub struct Hop {
    pub from: Node,
    pub to: Node,
    pub amount: u32,
}

/// `mcmf::GraphBuilder`: a graph under construction. Nothing inside it is
/// seen here; `graph_edges` names what it holds.
#[verifier::external_type_specification]
#[verifier::external_body]
#[verifier::reject_recursive_types(T)]
pub struct ExGraphBuilder<T: Clone + Ord>(mcmf::GraphBuilder<T>);

/// The edges that a graph under construction holds, in the order in which
/// they were added.
pub uninterp spec fn graph_edges(graph: GraphBuilder<usize>) -> Seq<Edge>;

/// `GraphBuilder::new`: a graph without edges.
#[verifier::external_body]
fn new_graph() -> (graph: GraphBuilder<usize>)
    ensures
        graph_edges(graph) == Seq::<Edge>::empty(),
{
    GraphBuilder::new()
}

/// `GraphBuilder::add_edge`: the edge is appended to the graph's edge list.
/// The outside function panics on a negative capacity, on an edge from a
/// vertex to itself, on one that leaves the sink and on one that enters the
/// source.
#[verifier::external_body]
fn add_edge(graph: &mut GraphBuilder<usize>, edge: Edge)
    requires
        edge.capacity >= 0,
        edge.from != edge.to,
        edge.from != Node::Sink,
        edge.to != Node::Source,
    ensures
        graph_edges(*final(graph)) == graph_edges(*old(graph)).push(edge),
{
    let a = match edge.from {
        Node::Source => Vertex::Source,
        Node::Sink => Vertex::Sink,
        Node::Participant(i) => Vertex::Node(i),
    };
    let b = match edge.to {
        Node::Source => Vertex::Source,
        Node::Sink => Vertex::Sink,
        Node::Participant(i) => Vertex::Node(i),
    };
    graph.add_edge(a, b, Capacity(edge.capacity), Cost(edge.cost));
}

/// What the solver finds for a list of edges: the total cost of the flow,
/// and its routes, each route as its hops from the source to the sink.
pub uninterp spec fn min_cost_flow(edges: Seq<Edge>) -> (i32, Seq<Seq<Hop>>);

/// The most edges that a graph handed to the solver may have. The solver
/// numbers the arcs, and with them twice the vertices, by a signed integer
/// of 32 bits, and steps through the arcs by sums of two such numbers. A
/// graph has at most two vertices for each edge besides the source and the
/// sink, so with this many edges all of these numbers are in range.
pub const MAX_EDGES: usize = 429_496_728;

/// `GraphBuilder::mcmf`: a minimum-cost maximum flow of the graph, as its
/// total cost and its routes. Nothing is claimed of either but that they are
/// determined by the edge list, and that only of a graph that is the
/// network of balances which fit it. The solver works in signed integers of
/// 32 bits. In such a network the costs are 0 and 1 and the vertices few, so
/// what it adds up of costs stays in range, as do, by the bound on the
/// edges, its numbers of arcs and vertices; the supply it clamps itself.
#[verifier::external_body]
fn solve(graph: &GraphBuilder<usize>) -> (r: (i32, Vec<Vec<Hop>>))
    requires
        graph_edges(*graph).len() <= MAX_EDGES,
        exists|b: Seq<isize>| #[trigger] fits_network(b) && graph_edges(*graph) == flow_network(b),
    ensures
        (r.0, route_views(r.1@)) == min_cost_flow(graph_edges(*graph)),
{
    let (cost, paths) = graph.mcmf();
    (cost, paths.into_iter().map(|p| p.flows.into_iter().map(|f| Hop {
        from: match f.a {
            Vertex::Source => Node::Source,
            Vertex::Sink => Node::Sink,
            Vertex::Node(i) => Node::Participant(i),
        },
        to: match f.b {
            Vertex::Source => Node::Source,
            Vertex::Sink => Node::Sink,
            Vertex::Node(i) => Node::Participant(i),
        },
        amount: f.amount,
    }).collect()).collect())
}

/// What one edge between two participants can carry.
pub const TRANSFER_CAPACITY: i32 = 1_000_000_000;

/// The most participants that a network can hold: with this many, the number
/// of its edges is still one that the solver takes.
pub const MAX_PARTICIPANTS: usize = 20_723;

/// The edge on which participant `from` can pay participant `to`.
pub open spec fn transfer_edge(from: nat, to: nat) -> Edge {
    Edge {
        from: Node::Participant(from as usize),
        to: Node::Participant(to as usize),
        capacity: TRANSFER_CAPACITY,
        cost: 1,
    }
}

/// The edges from participant `from` to every other participant below `to`,
/// in ascending order of the target.
pub open spec fn row_edges(from: nat, to: nat) -> Seq<Edge>
    decreases to,
{
    if to == 0 {
        Seq::empty()
    } else if from == to - 1 {
        row_edges(from, (to - 1) as nat)
    } else {
        row_edges(from, (to - 1) as nat).push(transfer_edge(from, (to - 1) as nat))
    }
}

/// The rows of the first `rows` participants among `n`, one after another.
pub open spec fn transfer_edges(n: nat, rows: nat) -> Seq<Edge>
    decreases rows,
{
    if rows == 0 {
        Seq::empty()
    } else {
        transfer_edges(n, (rows - 1) as nat) + row_edges((rows - 1) as nat, n)
    }
}

/// The edges that tie the first `k` participants to the source or the sink:
/// one that has a positive balance receives it from the source, one that has
/// a negative balance hands its magnitude to the sink, one that is settled
/// has no such edge.
pub open spec fn terminal_edges(balances: Seq<isize>, k: nat) -> Seq<Edge>
    decreases k,
{
    if k == 0 {
        Seq::empty()
    } else {
        let rest = terminal_edges(balances, (k - 1) as nat);
        let b = balances[k - 1];
        if b > 0 {
            rest.push(
                Edge {
                    from: Node::Source,
                    to: Node::Participant((k - 1) as usize),
                    capacity: b as i32,
                    cost: 0,
                },
            )
        } else if b < 0 {
            rest.push(
                Edge {
                    from: Node::Participant((k - 1) as usize),
                    to: Node::Sink,
                    capacity: (-b) as i32,
                    cost: 0,
                },
            )
        } else {
            rest
        }
    }
}

/// The whole network of a list of balances: an edge of unit cost between
/// every ordered pair of distinct participants, then the edges to the source
/// and the sink.
pub open spec fn flow_network(balances: Seq<isize>) -> Seq<Edge> {
    transfer_edges(balances.len(), balances.len()) + terminal_edges(balances, balances.len())
}

/// Balances that the network can stand for: few enough participants, and
/// every magnitude within a capacity.
pub open spec fn fits_network(balances: Seq<isize>) -> bool {
    &&& balances.len() <= MAX_PARTICIPANTS
    &&& forall|i: int| 0 <= i < balances.len() ==> -i32::MAX <= #[trigger] balances[i] <= i32::MAX
}

proof fn lemma_row_len(from: nat, to: nat)
    ensures
        row_edges(from, to).len() <= to,
    decreases to,
{
    if to > 0 {
        lemma_row_len(from, (to - 1) as nat);
    }
}

proof fn lemma_transfer_len(n: nat, rows: nat)
    ensures
        transfer_edges(n, rows).len() <= rows * n,
    decreases rows,
{
    if rows > 0 {
        lemma_transfer_len(n, (rows - 1) as nat);
        lemma_row_len((rows - 1) as nat, n);
        assert((rows - 1) * n + n == rows * n) by (nonlinear_arith);
    }
}

proof fn lemma_terminal_len(balances: Seq<isize>, k: nat)
    ensures
        terminal_edges(balances, k).len() <= k,
    decreases k,
{
    if k > 0 {
        lemma_terminal_len(balances, (k - 1) as nat);
    }
}

/// Whether the network can stand for `balances`.
pub fn fits_flow_network(balances: &Vec<isize>) -> (r: bool)
    ensures
        r == fits_network(balances@),
{
    if balances.len() > MAX_PARTICIPANTS {
        return false;
    }
    let mut k: usize = 0;
    while k < balances.len()
        invariant
            k <= balances.len(),
            forall|i: int| 0 <= i < k ==> -i32::MAX <= #[trigger] balances[i] <= i32::MAX,
        decreases balances.len() - k,
    {
        let b = balances[k];
        if b < -0x7fff_ffff || b > 0x7fff_ffff {
            return false;
        }
        k += 1;
    }
    true
}

/// A network of at most `MAX_PARTICIPANTS` participants has no more edges
/// than the solver takes.
pub proof fn lemma_network_len(balances: Seq<isize>)
    requires
        balances.len() <= MAX_PARTICIPANTS,
    ensures
        flow_network(balances).len() <= MAX_EDGES,
{
    let n = balances.len();
    lemma_transfer_len(n, n);
    lemma_terminal_len(balances, n);
    assert(n * n + n <= 429_496_728) by (nonlinear_arith)
        requires
            n <= 20_723,
    ;
}

/// Builds the network of `balances` in a solver graph.
fn build_graph(balances: &Vec<isize>) -> (graph: GraphBuilder<usize>)
    requires
        fits_network(balances@),
    ensures
        graph_edges(graph) == flow_network(balances@),
{
    let n = balances.len();
    let mut graph = new_graph();
    let mut i: usize = 0;
    while i < n
        invariant
            i <= n,
            n == balances.len(),
            graph_edges(graph) == transfer_edges(n as nat, i as nat),
        decreases n - i,
    {
        let mut j: usize = 0;
        while j < n
            invariant
                i < n,
                j <= n,
                graph_edges(graph) == transfer_edges(n as nat, i as nat) + row_edges(
                    i as nat,
                    j as nat,
                ),
            decreases n - j,
        {
            if i != j {
                let edge = Edge {
                    from: Node::Participant(i),
                    to: Node::Participant(j),
                    capacity: TRANSFER_CAPACITY,
                    cost: 1,
                };
                add_edge(&mut graph, edge);
                assert(edge == transfer_edge(i as nat, j as nat));
            }
            j += 1;
        }
        i += 1;
    }
    let mut k: usize = 0;
    while k < n
        invariant
            k <= n,
            n == balances.len(),
            fits_network(balances@),
            graph_edges(graph) == transfer_edges(n as nat, n as nat) + terminal_edges(
                balances@,
                k as nat,
            ),
        decreases n - k,
    {
        let b = balances[k];
        if b > 0 {
            add_edge(
                &mut graph,
                Edge { from: Node::Source, to: Node::Participant(k), capacity: b as i32, cost: 0 },
            );
        } else if b < 0 {
            add_edge(
                &mut graph,
                Edge { from: Node::Participant(k), to: Node::Sink, capacity: (-b) as i32, cost: 0 },
            );
        }
        k += 1;
    }
    graph
}

/// The routes of a solver's answer, each as the sequence of its hops.
pub open spec fn route_views(routes: Seq<Vec<Hop>>) -> Seq<Seq<Hop>> {
    routes.map_values(|r: Vec<Hop>| r@)
}

/// The transfer that a hop stands for. A hop that touches the source or the
/// sink is no payment, and neither is one that moves nothing or more than
/// the amount of a transfer can hold.
pub open spec fn hop_transfer(hop: Hop) -> Option<Transfer<usize>> {
    match (hop.from, hop.to) {
        (Node::Participant(a), Node::Participant(b)) => if 0 < hop.amount <= isize::MAX {
            Some(Transfer { from: a, to: b, amt: hop.amount as isize })
        } else {
            None
        },
        _ => None,
    }
}

/// The transfers of one route: those of its hops, in order.
pub open spec fn route_transfers(hops: Seq<Hop>) -> Seq<Transfer<usize>>
    decreases hops.len(),
{
    if hops.len() == 0 {
        Seq::empty()
    } else {
        match hop_transfer(hops.last()) {
            Some(t) => route_transfers(hops.drop_last()).push(t),
            None => route_transfers(hops.drop_last()),
        }
    }
}

/// The transfers of a list of routes: those of each route, one route after
/// another.
pub open spec fn decoded(routes: Seq<Seq<Hop>>) -> Seq<Transfer<usize>>
    decreases routes.len(),
{
    if routes.len() == 0 {
        Seq::empty()
    } else {
        decoded(routes.drop_last()) + route_transfers(routes.last())
    }
}

/// How many routes are not of the shape source, payer, payee, sink: such a
/// route had to pass through a third participant.
pub open spec fn detours(routes: Seq<Seq<Hop>>) -> nat
    decreases routes.len(),
{
    if routes.len() == 0 {
        0
    } else if routes.last().len() != 3 {
        detours(routes.drop_last()) + 1
    } else {
        detours(routes.drop_last())
    }
}

proof fn lemma_detours_bound(routes: Seq<Seq<Hop>>)
    ensures
        detours(routes) <= routes.len(),
    decreases routes.len(),
{
    if routes.len() > 0 {
        lemma_detours_bound(routes.drop_last());
    }
}

/// Every transfer read off a route is the payment of one of its hops, between
/// two participants and of a positive amount.
pub proof fn lemma_route_transfers(hops: Seq<Hop>, i: int)
    requires
        0 <= i < route_transfers(hops).len(),
    ensures
        route_transfers(hops)[i].amt > 0,
        exists|k: int|
            0 <= k < hops.len() && #[trigger] hop_transfer(hops[k]) == Some(
                route_transfers(hops)[i],
            ),
    decreases hops.len(),
{
    let rest = route_transfers(hops.drop_last());
    if i < rest.len() {
        lemma_route_transfers(hops.drop_last(), i);
        let k = choose|k: int|
            0 <= k < hops.drop_last().len() && #[trigger] hop_transfer(hops.drop_last()[k])
                == Some(rest[i]);
        assert(hop_transfer(hops[k]) == Some(route_transfers(hops)[i]));
    } else {
        assert(hop_transfer(hops[hops.len() - 1]) == Some(route_transfers(hops)[i]));
    }
}

/// Every transfer read off a list of routes is the payment of one hop of one
/// of them, between two participants and of a positive amount: the source
/// and the sink never pay or receive.
pub proof fn lemma_decoded(routes: Seq<Seq<Hop>>, i: int)
    requires
        0 <= i < decoded(routes).len(),
    ensures
        decoded(routes)[i].amt > 0,
        exists|r: int, k: int|
            0 <= r < routes.len() && 0 <= k < routes[r].len() && #[trigger] hop_transfer(
                routes[r][k],
            ) == Some(decoded(routes)[i]),
    decreases routes.len(),
{
    let rest = decoded(routes.drop_last());
    if i < rest.len() {
        lemma_decoded(routes.drop_last(), i);
        let (r, k) = choose|r: int, k: int|
            0 <= r < routes.drop_last().len() && 0 <= k < routes.drop_last()[r].len()
                && #[trigger] hop_transfer(routes.drop_last()[r][k]) == Some(rest[i]);
        assert(hop_transfer(routes[r][k]) == Some(decoded(routes)[i]));
    } else {
        let last = routes.len() - 1;
        lemma_route_transfers(routes[last], i - rest.len());
        let k = choose|k: int|
            0 <= k < routes[last].len() && #[trigger] hop_transfer(routes[last][k]) == Some(
                route_transfers(routes[last])[i - rest.len()],
            );
        assert(hop_transfer(routes[last][k]) == Some(decoded(routes)[i]));
    }
}

/// Whether a route goes from the source through a payer and a payee to the
/// sink, with one amount on its three hops.
pub open spec fn is_direct(route: Seq<Hop>) -> bool {
    &&& route.len() == 3
    &&& route[0].from == Node::Source
    &&& route[0].to == route[1].from
    &&& route[1].from is Participant
    &&& route[1].to is Participant
    &&& route[1].to == route[2].from
    &&& route[2].to == Node::Sink
    &&& route[0].amount == route[1].amount
    &&& route[1].amount == route[2].amount
}

/// Whether every route is direct.
pub open spec fn all_direct(routes: Seq<Seq<Hop>>) -> bool {
    forall|r: int| 0 <= r < routes.len() ==> is_direct(#[trigger] routes[r])
}

/// What the hops of a route carry from `from` to `to`.
pub open spec fn carried(hops: Seq<Hop>, from: Node, to: Node) -> int
    decreases hops.len(),
{
    if hops.len() == 0 {
        0
    } else {
        carried(hops.drop_last(), from, to) + if hops.last().from == from && hops.last().to == to {
            hops.last().amount as int
        } else {
            0
        }
    }
}

/// What the routes carry from `from` to `to`, all in all.
pub open spec fn carried_by(routes: Seq<Seq<Hop>>, from: Node, to: Node) -> int
    decreases routes.len(),
{
    if routes.len() == 0 {
        0
    } else {
        carried_by(routes.drop_last(), from, to) + carried(routes.last(), from, to)
    }
}

/// Whether the routes keep to what the network of `balances` lets pass
/// between the participants and the source and the sink: from the source to
/// a participant no more than its positive balance, from a participant to
/// the sink no more than the magnitude of its negative balance.
pub open spec fn within_balances(balances: Seq<isize>, routes: Seq<Seq<Hop>>) -> bool {
    forall|p: usize|
        p < balances.len() ==> #[trigger] carried_by(routes, Node::Source, Node::Participant(p))
            <= positive_part(balances[p as int] as int) && carried_by(
            routes,
            Node::Participant(p),
            Node::Sink,
        ) <= positive_part(-balances[p as int])
}

/// The transfer of a direct route takes from a participant no more than the
/// route carries to it from the source, and gives it no more than the route
/// carries from it to the sink.
proof fn lemma_direct_route(route: Seq<Hop>, p: usize)
    requires
        is_direct(route),
    ensures
        0 <= paid(route_transfers(route), p) <= carried(route, Node::Source, Node::Participant(p)),
        0 <= received(route_transfers(route), p) <= carried(
            route,
            Node::Participant(p),
            Node::Sink,
        ),
{
    let none = Seq::<Hop>::empty();
    let one = route.drop_last().drop_last();
    let two = route.drop_last();
    assert(one.drop_last() =~= none);
    assert(route_transfers(none) =~= Seq::<Transfer<usize>>::empty());
    assert(carried(none, Node::Source, Node::Participant(p)) == 0);
    assert(carried(none, Node::Participant(p), Node::Sink) == 0);
    assert(one.last() == route[0] && two.last() == route[1] && route.last() == route[2]);
    assert(route_transfers(one) == route_transfers(none));
    assert(hop_transfer(route[2]) is None);
    assert(route_transfers(route) == route_transfers(two));
    let made = route_transfers(two);
    if hop_transfer(route[1]) is Some {
        let t = hop_transfer(route[1])->0;
        assert(made == route_transfers(one).push(t));
        assert(made.drop_last() =~= Seq::<Transfer<usize>>::empty());
        assert(paid(made.drop_last(), p) == 0 && received(made.drop_last(), p) == 0);
    } else {
        assert(made =~= Seq::<Transfer<usize>>::empty());
    }
    assert(carried(one, Node::Source, Node::Participant(p)) == if route[0].to
        == Node::Participant(p) {
        route[0].amount as int
    } else {
        0
    });
    assert(carried(two, Node::Source, Node::Participant(p)) == carried(
        one,
        Node::Source,
        Node::Participant(p),
    ));
    assert(carried(one, Node::Participant(p), Node::Sink) == 0);
    assert(carried(two, Node::Participant(p), Node::Sink) == 0);
}

/// Where every route is direct and the routes keep to what the network of
/// `balances` lets pass, the transfers read off them take from no
/// participant more than its positive balance and give to none more than
/// the magnitude of its negative balance. A route that makes a detour is not
/// direct: the participants on its way hand on what is not theirs.
pub proof fn lemma_direct_routes_conserve(balances: Seq<isize>, routes: Seq<Seq<Hop>>, p: usize)
    requires
        all_direct(routes),
        within_balances(balances, routes),
        p < balances.len(),
    ensures
        0 <= paid(decoded(routes), p) <= positive_part(balances[p as int] as int),
        0 <= received(decoded(routes), p) <= positive_part(-balances[p as int]),
{
    lemma_direct_sums(routes, p);
    assert(carried_by(routes, Node::Source, Node::Participant(p)) <= positive_part(
        balances[p as int] as int,
    ));
}

/// The same, summed over the routes.
proof fn lemma_direct_sums(routes: Seq<Seq<Hop>>, p: usize)
    requires
        forall|r: int| 0 <= r < routes.len() ==> is_direct(#[trigger] routes[r]),
    ensures
        0 <= paid(decoded(routes), p) <= carried_by(routes, Node::Source, Node::Participant(p)),
        0 <= received(decoded(routes), p) <= carried_by(routes, Node::Participant(p), Node::Sink),
    decreases routes.len(),
{
    if routes.len() > 0 {
        let front = routes.drop_last();
        assert forall|r: int| 0 <= r < front.len() implies is_direct(#[trigger] front[r]) by {
            assert(front[r] == routes[r]);
        }
        lemma_direct_sums(front, p);
        assert(is_direct(routes[routes.len() - 1]));
        lemma_direct_route(routes.last(), p);
        lemma_sums_append(decoded(front), route_transfers(routes.last()), p);
    }
}

/// Reads the transfers off the routes of a flow, and counts the routes that
/// made a detour.
pub fn decode_routes(routes: &Vec<Vec<Hop>>) -> (r: (Vec<Transfer<usize>>, usize))
    ensures
        r.0@ == decoded(route_views(routes@)),
        r.1 == detours(route_views(routes@)),
        forall|i: int| 0 <= i < r.0.len() ==> (#[trigger] r.0[i]).amt > 0,
{
    let ghost views = route_views(routes@);
    let mut transfers: Vec<Transfer<usize>> = Vec::new();
    let mut long: usize = 0;
    let mut p: usize = 0;
    while p < routes.len()
        invariant
            p <= routes.len(),
            views == route_views(routes@),
            transfers@ == decoded(views.take(p as int)),
            long == detours(views.take(p as int)),
            long <= p,
        decreases routes.len() - p,
    {
        let route = &routes[p];
        let ghost before = transfers@;
        let mut h: usize = 0;
        while h < route.len()
            invariant
                h <= route.len(),
                transfers@ == before + route_transfers(route@.take(h as int)),
            decreases route.len() - h,
        {
            let hop = route[h];
            proof {
                assert(route@.take(h + 1).drop_last() == route@.take(h as int));
                assert(route@.take(h + 1).last() == hop);
            }
            match (hop.from, hop.to) {
                (Node::Participant(a), Node::Participant(b)) => {
                    if 0 < hop.amount && hop.amount as u64 <= isize::MAX as u64 {
                        transfers.push(Transfer { from: a, to: b, amt: hop.amount as isize });
                    }
                },
                _ => {},
            }
            h += 1;
        }
        proof {
            assert(route@.take(route@.len() as int) == route@);
            assert(views.take(p + 1).drop_last() == views.take(p as int));
            assert(views.take(p + 1).last() == route@);
        }
        if route.len() != 3 {
            long += 1;
        }
        p += 1;
    }
    proof {
        assert(views.take(routes.len() as int) == views);
        assert forall|i: int| 0 <= i < transfers.len() implies (#[trigger] transfers[i]).amt
            > 0 by {
            lemma_decoded(views, i);
        }
    }
    (transfers, long)
}

/// Settles `balances` by a minimum-cost flow: every participant that has a
/// positive balance pays, every one that has a negative balance is paid. The
/// answer holds the transfers, the number of routes that made a detour, and
/// the total cost that the solver gives for its flow. The plan need not be
/// the shortest one. Where the solver's routes are all direct and keep to
/// the balances, no participant pays more than its positive balance or is
/// paid more than the magnitude of its negative one.
pub fn compute_repayments_approx(balances: &Vec<isize>) -> (r: (Vec<Transfer<usize>>, usize, i32))
    requires
        fits_network(balances@),
    ensures
        r.0@ == decoded(min_cost_flow(flow_network(balances@)).1),
        r.1 == detours(min_cost_flow(flow_network(balances@)).1),
        r.2 == min_cost_flow(flow_network(balances@)).0,
        forall|i: int| 0 <= i < r.0.len() ==> (#[trigger] r.0[i]).amt > 0,
        all_direct(min_cost_flow(flow_network(balances@)).1) && within_balances(
            balances@,
            min_cost_flow(flow_network(balances@)).1,
        ) ==> forall|p: usize|
            p < balances.len() ==> 0 <= #[trigger] paid(r.0@, p) <= positive_part(
                balances[p as int] as int,
            ) && 0 <= received(r.0@, p) <= positive_part(-balances[p as int]),
{
    let graph = build_graph(balances);
    proof {
        lemma_network_len(balances@);
        assert(fits_network(balances@) && graph_edges(graph) == flow_network(balances@));
    }
    let (cost, routes) = solve(&graph);
    let (transfers, long) = decode_routes(&routes);
    proof {
        let found = min_cost_flow(flow_network(balances@)).1;
        if all_direct(found) && within_balances(balances@, found) {
            assert forall|p: usize| p < balances.len() implies 0 <= #[trigger] paid(
                transfers@,
                p,
            ) <= positive_part(balances[p as int] as int) && 0 <= received(transfers@, p)
                <= positive_part(-balances[p as int]) by {
                lemma_direct_routes_conserve(balances@, found, p);
            }
        }
    }
    (transfers, long, cost)
}

} // verus!
