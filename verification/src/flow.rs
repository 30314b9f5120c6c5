//! Flows on a network: what they carry, what they cost, and which of them are best.

use vstd::prelude::*;
use crate::network::{Edge, Vertex};

verus! {

/// The sum of `f[i] * w[i]` over the first `n` positions.
pub open spec fn weighted_sum(f: Seq<int>, w: Seq<int>, n: nat) -> int
    decreases n,
{
    if n == 0 {
        0
    } else {
        weighted_sum(f, w, (n - 1) as nat) + f[n - 1] * w[n - 1]
    }
}

/// One for each edge that leaves `v`, zero for the others.
pub open spec fn leaving(edges: Seq<Edge>, v: Vertex) -> Seq<int> {
    Seq::new(edges.len(), |i: int| if edges[i].from == v { 1int } else { 0int })
}

/// One for each edge that enters `v`, zero for the others.
pub open spec fn entering(edges: Seq<Edge>, v: Vertex) -> Seq<int> {
    Seq::new(edges.len(), |i: int| if edges[i].to == v { 1int } else { 0int })
}

/// The cost of each edge.
pub open spec fn costs(edges: Seq<Edge>) -> Seq<int> {
    Seq::new(edges.len(), |i: int| edges[i].cost as int)
}

/// The capacity of each edge.
pub open spec fn capacities(edges: Seq<Edge>) -> Seq<int> {
    Seq::new(edges.len(), |i: int| edges[i].capacity as int)
}

/// One at each of `n` positions.
pub open spec fn ones(n: nat) -> Seq<int> {
    Seq::new(n, |i: int| 1int)
}

/// What `f` sends out of `v`.
pub open spec fn flow_from(edges: Seq<Edge>, f: Seq<int>, v: Vertex) -> int {
    weighted_sum(f, leaving(edges, v), edges.len())
}

/// What `f` sends into `v`.
pub open spec fn flow_into(edges: Seq<Edge>, f: Seq<int>, v: Vertex) -> int {
    weighted_sum(f, entering(edges, v), edges.len())
}

/// What `f` costs: for each edge, its cost times what it carries.
pub open spec fn flow_cost(edges: Seq<Edge>, f: Seq<int>) -> int {
    weighted_sum(f, costs(edges), edges.len())
}

/// What `f` sends from the source to the sink.
pub open spec fn flow_value(edges: Seq<Edge>, f: Seq<int>) -> int {
    flow_from(edges, f, Vertex::Source)
}

/// `f` gives each edge an amount between zero and its capacity, and every vertex but the
/// source and the sink passes on what it receives.
pub open spec fn is_flow(edges: Seq<Edge>, f: Seq<int>) -> bool {
    &&& f.len() == edges.len()
    &&& forall|i: int| 0 <= i < edges.len() ==> 0 <= #[trigger] f[i] <= edges[i].capacity
    &&& forall|k: usize| #[trigger]
        flow_into(edges, f, Vertex::Node(k)) == flow_from(edges, f, Vertex::Node(k))
}

/// No flow sends more than `f`.
pub open spec fn is_max_flow(edges: Seq<Edge>, f: Seq<int>) -> bool {
    &&& is_flow(edges, f)
    &&& forall|g: Seq<int>| #[trigger] is_flow(edges, g) ==> flow_value(edges, g) <= flow_value(edges, f)
}

/// Of the flows that send as much as any, none costs less than `f`.
pub open spec fn is_min_cost_max_flow(edges: Seq<Edge>, f: Seq<int>) -> bool {
    &&& is_max_flow(edges, f)
    &&& forall|g: Seq<int>| #[trigger]
        is_max_flow(edges, g) ==> flow_cost(edges, f) <= flow_cost(edges, g)
}

/// `total` is what a cheapest of the largest flows costs.
pub open spec fn is_min_cost_of_max_flow(edges: Seq<Edge>, total: int) -> bool {
    exists|f: Seq<int>| #[trigger] is_min_cost_max_flow(edges, f) && flow_cost(edges, f) == total
}

/// The sum of all capacities.
pub open spec fn total_capacity(edges: Seq<Edge>) -> int {
    weighted_sum(capacities(edges), ones(edges.len()), edges.len())
}

/// The sum of all costs.
pub open spec fn total_cost(edges: Seq<Edge>) -> int {
    weighted_sum(costs(edges), ones(edges.len()), edges.len())
}

/// What it costs to fill every edge.
pub open spec fn filled_cost(edges: Seq<Edge>) -> int {
    weighted_sum(capacities(edges), costs(edges), edges.len())
}

/// The flow that carries nothing.
pub open spec fn zero_flow(n: nat) -> Seq<int> {
    Seq::new(n, |i: int| 0int)
}

/// The flow that carries one unit over the edge at `p` and nothing elsewhere.
pub open spec fn unit_flow(n: nat, p: int) -> Seq<int> {
    Seq::new(n, |i: int| if i == p { 1int } else { 0int })
}

/// The flow that carries over each edge what `f` and `g` carry together.
pub open spec fn add_flows(f: Seq<int>, g: Seq<int>) -> Seq<int> {
    Seq::new(f.len(), |i: int| f[i] + g[i])
}

/// The flow that carries nothing adds up to nothing.
pub proof fn lemma_sum_zero(m: nat, w: Seq<int>, n: nat)
    requires
        n <= m,
    ensures
        weighted_sum(zero_flow(m), w, n) == 0,
    decreases n,
{
    if n > 0 {
        lemma_sum_zero(m, w, (n - 1) as nat);
    }
}

/// The flow that carries one unit over the edge at `p` adds up to what `w` holds at `p`.
pub proof fn lemma_sum_unit(m: nat, p: int, w: Seq<int>, n: nat)
    requires
        n <= m,
    ensures
        weighted_sum(unit_flow(m, p), w, n) == if 0 <= p < n {
            w[p]
        } else {
            0
        },
    decreases n,
{
    if n > 0 {
        lemma_sum_unit(m, p, w, (n - 1) as nat);
    }
}

/// What two flows carry together adds up to the sum of what each adds up to.
pub proof fn lemma_sum_add(f: Seq<int>, g: Seq<int>, w: Seq<int>, n: nat)
    requires
        n <= f.len(),
    ensures
        weighted_sum(add_flows(f, g), w, n) == weighted_sum(f, w, n) + weighted_sum(g, w, n),
    decreases n,
{
    if n > 0 {
        lemma_sum_add(f, g, w, (n - 1) as nat);
        assert((f[n - 1] + g[n - 1]) * w[n - 1] == f[n - 1] * w[n - 1] + g[n - 1] * w[n - 1])
            by (nonlinear_arith);
    }
}

/// A sum of terms that are zero from `m` on and at most one before is at most `m`.
pub proof fn lemma_sum_bounded(f: Seq<int>, w: Seq<int>, n: nat, m: nat)
    requires
        forall|i: int| 0 <= i < n && i < m ==> f[i] * w[i] <= 1,
        forall|i: int| 0 <= i < n && i >= m ==> f[i] * w[i] == 0,
    ensures
        weighted_sum(f, w, n) <= m,
        weighted_sum(f, w, n) <= n,
    decreases n,
{
    if n > 0 {
        lemma_sum_bounded(f, w, (n - 1) as nat, m);
    }
}

} // verus!
