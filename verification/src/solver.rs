//! The solver: the network is handed to the `mcmf` crate, and what comes back is read as an
//! assignment.

use vstd::prelude::*;
use crate::assignment::{is_optimal, quota_total, quota_upto};
use crate::extraction::{
    extract,
    extraction,
    lemma_encodes_unique,
    paths_view,
    AssignError,
    Step,
};
use crate::flow::{
    capacities,
    costs,
    filled_cost,
    flow_cost,
    is_min_cost_max_flow,
    is_min_cost_of_max_flow,
    ones,
    total_capacity,
    total_cost,
    weighted_sum,
};
use crate::matching::lemma_cheapest_flow_is_optimal;
use crate::network::{Edge, FlowNetwork, Instance, Vertex};

verus! {

/// `mcmf::GraphBuilder`: a graph that edges are added to and that is then solved. Nothing
/// inside it is seen here.
#[verifier::external_type_specification]
#[verifier::external_body]
#[verifier::reject_recursive_types(T)]
pub struct ExGraphBuilder<T: Clone + Ord>(mcmf::GraphBuilder<T>);

/// The edges that a `mcmf::GraphBuilder` holds, in the order in which they were added.
pub uninterp spec fn graph_edges(g: mcmf::GraphBuilder<usize>) -> Seq<Edge>;

/// What `mcmf::GraphBuilder::mcmf` returns for a graph with the given edges: a total cost,
/// and paths from the source to the sink. The solver takes no other input and draws no
/// random numbers, so the edges decide what it returns.
pub uninterp spec fn mcmf_outcome(edges: Seq<Edge>) -> (int, Seq<Seq<Step>>);

/// The bound that the number of edges must stay below. The solver counts its vertices and
/// edges in signed 32-bit numbers, and forms the number of edges and twice the number of
/// vertices together; there are no more than two vertices for each edge, and two more.
pub const EDGE_BOUND: usize = 0x1000_0000;

/// The bound that the sum of all capacities must stay below. The solver counts in signed
/// 32-bit numbers and takes the largest of them for a capacity without limit.
pub const FLOW_BOUND: i32 = 0x4000_0000;

/// The bound that the sum of all costs must stay below. The solver charges 2^30 for each unit
/// that it does not send, so a path must cost less than that to be used, and the sums and
/// differences that the solver forms of such numbers must stay within 32 bits.
pub const COST_BOUND: i32 = 0x1000_0000;

/// An edge that a graph takes: its capacity is not negative, it joins two vertices, it does
/// not leave the sink and does not enter the source.
pub open spec fn edge_ok(e: Edge) -> bool {
    &&& e.capacity >= 0
    &&& e.from != e.to
    &&& e.from != Vertex::Sink
    &&& e.to != Vertex::Source
}

/// What the solver can work on: the edges are fewer than their bound, every edge is one that a
/// graph takes and its cost is not negative, the capacities together and the costs together
/// stay below their bounds, and the cost of filling every edge fits in 32 bits, as the total
/// cost that the solver returns must.
pub open spec fn solver_range(edges: Seq<Edge>) -> bool {
    &&& edges.len() < EDGE_BOUND
    &&& forall|i: int| 0 <= i < edges.len() ==> edge_ok(#[trigger] edges[i]) && 0 <= edges[i].cost
    &&& total_capacity(edges) < FLOW_BOUND
    &&& total_cost(edges) < COST_BOUND
    &&& filled_cost(edges) <= i32::MAX
}

/// `mcmf::GraphBuilder::new`. Believed of it: the new graph holds no edge.
#[verifier::external_body]
fn graph_new() -> (g: mcmf::GraphBuilder<usize>)
    ensures
        graph_edges(g) == Seq::<Edge>::empty(),
{
    mcmf::GraphBuilder::new()
}

/// `mcmf::GraphBuilder::add_edge`. Believed of it: the edge is added after those that the
/// graph holds, and nothing else changes. The outside function panics on an edge that is not
/// as `edge_ok` asks, so such an edge is not handed to it.
#[verifier::external_body]
fn graph_add_edge(g: &mut mcmf::GraphBuilder<usize>, e: Edge)
    requires
        edge_ok(e),
    ensures
        graph_edges(*final(g)) == graph_edges(*old(g)).push(e),
{
    let from = match e.from {
        Vertex::Source => mcmf::Vertex::Source,
        Vertex::Sink => mcmf::Vertex::Sink,
        Vertex::Node(k) => mcmf::Vertex::Node(k),
    };
    let to = match e.to {
        Vertex::Source => mcmf::Vertex::Source,
        Vertex::Sink => mcmf::Vertex::Sink,
        Vertex::Node(k) => mcmf::Vertex::Node(k),
    };
    g.add_edge(from, to, mcmf::Capacity(e.capacity), mcmf::Cost(e.cost));
}

/// `mcmf::GraphBuilder::mcmf`, which computes a minimum cost maximum flow and returns its
/// total cost and the paths that it is made of. Believed of it, and not proved: the edges
/// decide the result; and the total cost is what a cheapest of the largest flows costs, as
/// the documentation of the crate says, within the range in which the 32-bit numbers of the
/// solver hold what they stand for: the counts of vertices and edges, the capacities, the
/// costs, and what the solver adds up of them. Nothing is believed of the paths: each is handed on as
/// the edges that it holds, field by field, and is examined by `extract`.
#[verifier::external_body]
fn graph_mcmf(g: &mcmf::GraphBuilder<usize>) -> (r: (i32, Vec<Vec<Step>>))
    requires
        solver_range(graph_edges(*g)),
    ensures
        (r.0 as int, paths_view(r.1@)) == mcmf_outcome(graph_edges(*g)),
        is_min_cost_of_max_flow(graph_edges(*g), r.0 as int),
{
    let (total, paths) = g.mcmf();
    (total, paths.into_iter().map(|p| p.flows.into_iter().map(|s| Step {
        from: match s.a {
            mcmf::Vertex::Source => Vertex::Source,
            mcmf::Vertex::Sink => Vertex::Sink,
            mcmf::Vertex::Node(k) => Vertex::Node(k),
        },
        to: match s.b {
            mcmf::Vertex::Source => Vertex::Source,
            mcmf::Vertex::Sink => Vertex::Sink,
            mcmf::Vertex::Node(k) => Vertex::Node(k),
        },
        amount: s.amount,
        cost: s.cost,
    }).collect()).collect())
}

/// Whether the solver can work on the edges.
pub fn in_solver_range(edges: &Vec<Edge>) -> (ok: bool)
    ensures
        ok == solver_range(edges@),
{
    if edges.len() >= EDGE_BOUND {
        return false;
    }
    let ghost caps = capacities(edges@);
    let ghost prices = costs(edges@);
    let ghost unit = ones(edges@.len());
    let mut capacity: u128 = 0;
    let mut cost: u128 = 0;
    let mut filled: u128 = 0;
    let mut i: usize = 0;
    while i < edges.len()
        invariant
            i <= edges.len(),
            caps == capacities(edges@),
            prices == costs(edges@),
            unit == ones(edges@.len()),
            forall|k: int| 0 <= k < i ==> edge_ok(#[trigger] edges[k]) && 0 <= edges[k].cost,
            capacity == weighted_sum(caps, unit, i as nat),
            cost == weighted_sum(prices, unit, i as nat),
            filled == weighted_sum(caps, prices, i as nat),
            capacity <= 0x8000_0000 * i,
            cost <= 0x8000_0000 * i,
            filled <= 0x4000_0000_0000_0000 * i,
        decreases edges.len() - i,
    {
        let e = edges[i];
        if e.capacity < 0 || e.cost < 0 || e.from == e.to || e.from == Vertex::Sink || e.to
            == Vertex::Source {
            return false;
        }
        proof {
            assert(caps[i as int] * prices[i as int] <= 0x4000_0000_0000_0000) by (nonlinear_arith)
                requires
                    0 <= caps[i as int] <= 0x8000_0000,
                    0 <= prices[i as int] <= 0x8000_0000,
            ;
            assert(0 <= caps[i as int] * prices[i as int]) by (nonlinear_arith)
                requires
                    0 <= caps[i as int],
                    0 <= prices[i as int],
            ;
            assert(unit[i as int] == 1);
            assert(caps[i as int] * unit[i as int] == caps[i as int]) by (nonlinear_arith)
                requires
                    unit[i as int] == 1,
            ;
            assert(prices[i as int] * unit[i as int] == prices[i as int]) by (nonlinear_arith)
                requires
                    unit[i as int] == 1,
            ;
        }
        capacity = capacity + e.capacity as u128;
        cost = cost + e.cost as u128;
        filled = filled + (e.capacity as u128) * (e.cost as u128);
        i = i + 1;
    }
    capacity < FLOW_BOUND as u128 && cost < COST_BOUND as u128 && filled <= i32::MAX as u128
}

/// Whether the cases can take all the teams.
pub fn has_room(net: &FlowNetwork) -> (ok: bool)
    requires
        net.wf(),
    ensures
        ok == (quota_total(net.instance()) >= net.instance().num_teams()),
{
    let ghost inst = net.instance();
    let mut room: u128 = 0;
    let mut j: usize = 0;
    while j < net.num_cases
        invariant
            j <= net.num_cases,
            net.wf(),
            inst == net.instance(),
            room == quota_upto(inst, j as nat),
            room <= 0x8000_0000 * j,
        decreases net.num_cases - j,
    {
        room = room + net.quota(j) as u128;
        j = j + 1;
    }
    room >= net.num_teams as u128
}

/// Hands the edges to a graph of the solver.
fn load_graph(edges: &Vec<Edge>) -> (g: mcmf::GraphBuilder<usize>)
    requires
        forall|i: int| 0 <= i < edges.len() ==> edge_ok(#[trigger] edges[i]),
    ensures
        graph_edges(g) == edges@,
{
    let mut g = graph_new();
    let mut i: usize = 0;
    while i < edges.len()
        invariant
            i <= edges.len(),
            forall|k: int| 0 <= k < edges.len() ==> edge_ok(#[trigger] edges[k]),
            graph_edges(g) == edges@.take(i as int),
        decreases edges.len() - i,
    {
        graph_add_edge(&mut g, edges[i]);
        proof {
            assert(edges@.take(i as int).push(edges@[i as int]) =~= edges@.take(i + 1));
        }
        i = i + 1;
    }
    proof {
        assert(edges@.take(edges.len() as int) =~= edges@);
    }
    g
}

/// What solving an instance gives. Where the cases cannot take all the teams, that is said
/// before anything is solved; where the solver cannot work on the network, that is said;
/// otherwise the result is read from what the solver returns.
pub open spec fn solution(inst: Instance, r: Result<Vec<usize>, AssignError>) -> bool {
    if quota_total(inst) < inst.num_teams() {
        r matches Err(AssignError::Infeasible)
    } else if !solver_range(inst.edges()) {
        r matches Err(AssignError::TooLarge)
    } else {
        extraction(inst, mcmf_outcome(inst.edges()).0, mcmf_outcome(inst.edges()).1, r)
    }
}

/// Solving one instance twice gives the same assignment, and so the same cost.
pub proof fn lemma_solution_unique(
    inst: Instance,
    first: Result<Vec<usize>, AssignError>,
    second: Result<Vec<usize>, AssignError>,
)
    requires
        solution(inst, first),
        solution(inst, second),
    ensures
        first is Ok <==> second is Ok,
        first is Ok ==> first->Ok_0@ == second->Ok_0@,
        first is Err ==> first->Err_0 == second->Err_0,
{
    if quota_total(inst) >= inst.num_teams() && solver_range(inst.edges()) {
        let total = mcmf_outcome(inst.edges()).0;
        let paths = mcmf_outcome(inst.edges()).1;
        if first is Ok && second is Ok {
            lemma_encodes_unique(inst, paths, first->Ok_0@, second->Ok_0@);
        }
    }
}

/// Assigns each team to a case, so that no case has more teams than its quota and the teams
/// together pay as little as they can. The result holds the case of each team, in the order
/// of the teams.
pub fn solve(net: &FlowNetwork) -> (r: Result<Vec<usize>, AssignError>)
    requires
        net.wf(),
    ensures
        solution(net.instance(), r),
        r matches Ok(a) ==> is_optimal(net.instance(), a@),
{
    if !has_room(net) {
        return Err(AssignError::Infeasible);
    }
    if !in_solver_range(&net.edges) {
        return Err(AssignError::TooLarge);
    }
    let g = load_graph(&net.edges);
    let (total, paths) = graph_mcmf(&g);
    let r = extract(net, total, &paths);
    proof {
        if r is Ok {
            let f = choose|f: Seq<int>| #[trigger]
                is_min_cost_max_flow(net.edges@, f) && flow_cost(net.edges@, f) == total;
            lemma_cheapest_flow_is_optimal(net.instance(), f, r->Ok_0@);
        }
    }
    r
}

} // verus!
