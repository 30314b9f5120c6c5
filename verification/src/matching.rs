//! Assignments as flows: every allowed assignment is a flow of the network that sends one unit
//! for each team and costs what the assignment costs.

use vstd::prelude::*;
use crate::assignment::{
    assignment_cost,
    cost_upto,
    is_optimal,
    lemma_load_grows,
    load,
    load_upto,
    valid_assignment,
};
use crate::flow::{
    add_flows,
    costs,
    entering,
    flow_cost,
    flow_from,
    flow_into,
    flow_value,
    is_flow,
    is_max_flow,
    is_min_cost_max_flow,
    leaving,
    lemma_sum_add,
    lemma_sum_bounded,
    lemma_sum_unit,
    lemma_sum_zero,
    unit_flow,
    weighted_sum,
    zero_flow,
};
use crate::network::{Edge, Instance, Vertex};

verus! {

/// The flow that sends one unit from the source over team `t` and case `j` to the sink.
pub open spec fn path_flow(inst: Instance, t: int, j: int) -> Seq<int> {
    let n = inst.num_edges() as nat;
    add_flows(
        add_flows(unit_flow(n, inst.source_edge(t)), unit_flow(n, inst.team_edge(t, j))),
        unit_flow(n, inst.sink_edge(j)),
    )
}

/// The flow that sends one unit for each of the first `n` teams over the team and its case.
pub open spec fn assignment_flow(inst: Instance, a: Seq<usize>, n: nat) -> Seq<int>
    decreases n,
{
    if n == 0 {
        zero_flow(inst.num_edges() as nat)
    } else {
        add_flows(
            assignment_flow(inst, a, (n - 1) as nat),
            path_flow(inst, n - 1, a[n - 1] as int),
        )
    }
}

/// What `w` holds along the path over team `t` and case `j`.
pub open spec fn path_weight(inst: Instance, w: Seq<int>, t: int, j: int) -> int {
    w[inst.source_edge(t)] + w[inst.team_edge(t, j)] + w[inst.sink_edge(j)]
}

/// What `w` holds along the paths of the first `n` teams.
pub open spec fn paths_weight(inst: Instance, a: Seq<usize>, w: Seq<int>, n: nat) -> int
    decreases n,
{
    if n == 0 {
        0
    } else {
        paths_weight(inst, a, w, (n - 1) as nat) + path_weight(inst, w, n - 1, a[n - 1] as int)
    }
}

/// The three edges of the path over team `t` and case `j`.
pub proof fn lemma_path_edges(inst: Instance, t: int, j: int)
    requires
        inst.representable(),
        0 <= t < inst.num_teams(),
        0 <= j < inst.num_cases(),
    ensures
        0 <= inst.source_edge(t) < inst.num_teams() <= inst.team_edge(t, j) < inst.sink_edge(0)
            <= inst.sink_edge(j) < inst.num_edges(),
        inst.edges()[inst.source_edge(t)] == (Edge {
            from: Vertex::Source,
            to: inst.team_vertex(t),
            capacity: 1,
            cost: 0,
        }),
        inst.edges()[inst.team_edge(t, j)] == (Edge {
            from: inst.team_vertex(t),
            to: inst.case_vertex(j),
            capacity: 1,
            cost: inst.costs[t][j] as i32,
        }),
        inst.edges()[inst.sink_edge(j)] == (Edge {
            from: inst.case_vertex(j),
            to: Vertex::Sink,
            capacity: inst.quotas[j] as i32,
            cost: 0,
        }),
        inst.team_vertex(t) != inst.case_vertex(j),
{
    inst.lemma_source_edge(t);
    inst.lemma_team_edge(t, j);
    inst.lemma_sink_edge(j);
    inst.lemma_sink_start();
}

/// The flow of an assignment gives an amount to each edge of the network.
pub proof fn lemma_assignment_flow_len(inst: Instance, a: Seq<usize>, n: nat)
    requires
        inst.num_edges() >= 0,
    ensures
        assignment_flow(inst, a, n).len() == inst.num_edges(),
    decreases n,
{
    if n > 0 {
        lemma_assignment_flow_len(inst, a, (n - 1) as nat);
    }
}

/// Whatever is summed over the flow of an assignment is summed along the paths of its teams.
pub proof fn lemma_flow_sum(inst: Instance, a: Seq<usize>, w: Seq<int>, n: nat)
    requires
        inst.representable(),
        n <= inst.num_teams(),
        n <= a.len(),
        forall|t: int| 0 <= t < n ==> #[trigger] a[t] < inst.num_cases(),
    ensures
        weighted_sum(assignment_flow(inst, a, n), w, inst.num_edges() as nat) == paths_weight(
            inst,
            a,
            w,
            n,
        ),
    decreases n,
{
    let m = inst.num_edges() as nat;
    if n == 0 {
        lemma_sum_zero(m, w, m);
    } else {
        let t = n - 1;
        let j = a[t] as int;
        let before = assignment_flow(inst, a, (n - 1) as nat);
        lemma_flow_sum(inst, a, w, (n - 1) as nat);
        lemma_assignment_flow_len(inst, a, (n - 1) as nat);
        lemma_path_edges(inst, t, j);
        let u1 = unit_flow(m, inst.source_edge(t));
        let u2 = unit_flow(m, inst.team_edge(t, j));
        let u3 = unit_flow(m, inst.sink_edge(j));
        lemma_sum_unit(m, inst.source_edge(t), w, m);
        lemma_sum_unit(m, inst.team_edge(t, j), w, m);
        lemma_sum_unit(m, inst.sink_edge(j), w, m);
        lemma_sum_add(u1, u2, w, m);
        lemma_sum_add(add_flows(u1, u2), u3, w, m);
        lemma_sum_add(before, path_flow(inst, t, j), w, m);
    }
}

/// What the flow of an assignment carries over each edge: one unit from the source to each
/// team, one unit from each team to its case, and from each case what it has of teams.
pub open spec fn carried(inst: Instance, a: Seq<usize>, n: nat, i: int) -> int {
    if i < inst.num_teams() {
        if i < n {
            1
        } else {
            0
        }
    } else if i < inst.sink_edge(0) {
        let t = (i - inst.num_teams()) / inst.num_cases();
        let j = (i - inst.num_teams()) % inst.num_cases();
        if t < n && a[t] == j {
            1
        } else {
            0
        }
    } else {
        load_upto(a, i - inst.sink_edge(0), n)
    }
}

/// The flow of an assignment carries over each edge what `carried` says.
pub proof fn lemma_carried(inst: Instance, a: Seq<usize>, n: nat, i: int)
    requires
        inst.representable(),
        n <= inst.num_teams(),
        n <= a.len(),
        forall|t: int| 0 <= t < n ==> #[trigger] a[t] < inst.num_cases(),
        0 <= i < inst.num_edges(),
    ensures
        assignment_flow(inst, a, n)[i] == carried(inst, a, n, i),
    decreases n,
{
    if n > 0 {
        let t = n - 1;
        let j = a[t] as int;
        let m = inst.num_edges() as nat;
        lemma_carried(inst, a, (n - 1) as nat, i);
        lemma_assignment_flow_len(inst, a, (n - 1) as nat);
        lemma_path_edges(inst, t, j);
        let step = path_flow(inst, t, j);
        assert(step[i] == (if i == inst.source_edge(t) {
            1int
        } else {
            0int
        }) + (if i == inst.team_edge(t, j) {
            1int
        } else {
            0int
        }) + (if i == inst.sink_edge(j) {
            1int
        } else {
            0int
        }));
        let before = assignment_flow(inst, a, (n - 1) as nat);
        assert(assignment_flow(inst, a, n)[i] == before[i] + step[i]);
        if i < inst.num_teams() {
            assert(step[i] == if i == t { 1int } else { 0int });
        } else if i < inst.sink_edge(0) {
            inst.lemma_team_edge_at(i);
            inst.lemma_team_edge(t, j);
            let ti = (i - inst.num_teams()) / inst.num_cases();
            let ji = (i - inst.num_teams()) % inst.num_cases();
            assert(step[i] == if ti == t && ji == j { 1int } else { 0int });
        } else {
            assert(step[i] == if i - inst.sink_edge(0) == j { 1int } else { 0int });
        }
    } else {
        inst.lemma_sink_start();
        if inst.num_teams() <= i < inst.sink_edge(0) {
            inst.lemma_team_edge_at(i);
        }
    }
}

/// An allowed assignment is a flow that sends one unit for each team and costs what the
/// assignment costs.
pub proof fn lemma_assignment_is_flow(inst: Instance, a: Seq<usize>)
    requires
        inst.representable(),
        valid_assignment(inst, a),
    ensures
        is_flow(inst.edges(), assignment_flow(inst, a, a.len())),
        flow_value(inst.edges(), assignment_flow(inst, a, a.len())) == inst.num_teams(),
        flow_cost(inst.edges(), assignment_flow(inst, a, a.len())) == assignment_cost(inst, a),
{
    let edges = inst.edges();
    let n = a.len();
    let f = assignment_flow(inst, a, n);
    lemma_assignment_flow_len(inst, a, n);
    assert forall|i: int| 0 <= i < edges.len() implies 0 <= #[trigger] f[i]
        <= edges[i].capacity by {
        lemma_carried(inst, a, n, i);
        if i < inst.num_teams() {
            inst.lemma_source_edge(i);
        } else if i < inst.sink_edge(0) {
            inst.lemma_team_edge_at(i);
            inst.lemma_team_edge(
                (i - inst.num_teams()) / inst.num_cases(),
                (i - inst.num_teams()) % inst.num_cases(),
            );
        } else {
            let j = i - inst.sink_edge(0);
            inst.lemma_sink_edge(j);
            lemma_load_grows(a, j, n, n);
            assert(load(a, j) <= inst.quotas[j]);
        }
    }
    assert forall|k: usize| #[trigger]
        flow_into(edges, f, Vertex::Node(k)) == flow_from(edges, f, Vertex::Node(k)) by {
        lemma_flow_sum(inst, a, entering(edges, Vertex::Node(k)), n);
        lemma_flow_sum(inst, a, leaving(edges, Vertex::Node(k)), n);
        lemma_paths_balance(inst, a, Vertex::Node(k), n);
    }
    lemma_flow_sum(inst, a, leaving(edges, Vertex::Source), n);
    lemma_paths_value(inst, a, n);
    lemma_flow_sum(inst, a, costs(edges), n);
    lemma_paths_cost(inst, a, n);
}

/// Each path enters a vertex other than the source and the sink as often as it leaves it.
proof fn lemma_paths_balance(inst: Instance, a: Seq<usize>, v: Vertex, n: nat)
    requires
        inst.representable(),
        n <= inst.num_teams(),
        n <= a.len(),
        forall|t: int| 0 <= t < n ==> #[trigger] a[t] < inst.num_cases(),
        v is Node,
    ensures
        paths_weight(inst, a, entering(inst.edges(), v), n) == paths_weight(
            inst,
            a,
            leaving(inst.edges(), v),
            n,
        ),
    decreases n,
{
    if n > 0 {
        lemma_paths_balance(inst, a, v, (n - 1) as nat);
        lemma_path_edges(inst, n - 1, a[n - 1] as int);
    }
}

/// Each path leaves the source once.
proof fn lemma_paths_value(inst: Instance, a: Seq<usize>, n: nat)
    requires
        inst.representable(),
        n <= inst.num_teams(),
        n <= a.len(),
        forall|t: int| 0 <= t < n ==> #[trigger] a[t] < inst.num_cases(),
    ensures
        paths_weight(inst, a, leaving(inst.edges(), Vertex::Source), n) == n,
    decreases n,
{
    if n > 0 {
        lemma_paths_value(inst, a, (n - 1) as nat);
        lemma_path_edges(inst, n - 1, a[n - 1] as int);
    }
}

/// Each path costs what its team pays for its case.
proof fn lemma_paths_cost(inst: Instance, a: Seq<usize>, n: nat)
    requires
        inst.representable(),
        n <= inst.num_teams(),
        n <= a.len(),
        forall|t: int| 0 <= t < n ==> #[trigger] a[t] < inst.num_cases(),
    ensures
        paths_weight(inst, a, costs(inst.edges()), n) == cost_upto(inst, a, n),
    decreases n,
{
    if n > 0 {
        lemma_paths_cost(inst, a, (n - 1) as nat);
        lemma_path_edges(inst, n - 1, a[n - 1] as int);
    }
}

/// No flow sends more than one unit for each team.
pub proof fn lemma_value_bounded(inst: Instance, g: Seq<int>)
    requires
        inst.representable(),
        is_flow(inst.edges(), g),
    ensures
        flow_value(inst.edges(), g) <= inst.num_teams(),
{
    let edges = inst.edges();
    let w = leaving(edges, Vertex::Source);
    let m = inst.num_teams() as nat;
    assert forall|i: int| 0 <= i < edges.len() && i < m implies g[i] * w[i] <= 1 by {
        inst.lemma_source_edge(i);
        assert(w[i] == 1);
        assert(g[i] <= edges[i].capacity);
    }
    assert forall|i: int| 0 <= i < edges.len() && i >= m implies g[i] * w[i] == 0 by {
        if i < inst.sink_edge(0) {
            inst.lemma_team_edge_at(i);
            inst.lemma_team_edge(
                (i - inst.num_teams()) / inst.num_cases(),
                (i - inst.num_teams()) % inst.num_cases(),
            );
        } else {
            inst.lemma_sink_edge(i - inst.sink_edge(0));
        }
        assert(w[i] == 0);
    }
    lemma_sum_bounded(g, w, edges.len(), m);
}

/// An allowed assignment that costs what a cheapest of the largest flows costs is a best
/// assignment.
pub proof fn lemma_cheapest_flow_is_optimal(inst: Instance, f: Seq<int>, a: Seq<usize>)
    requires
        inst.representable(),
        is_min_cost_max_flow(inst.edges(), f),
        valid_assignment(inst, a),
        assignment_cost(inst, a) == flow_cost(inst.edges(), f),
    ensures
        is_optimal(inst, a),
{
    let edges = inst.edges();
    assert forall|b: Seq<usize>| #[trigger] valid_assignment(inst, b) implies assignment_cost(
        inst,
        a,
    ) <= assignment_cost(inst, b) by {
        let g = assignment_flow(inst, b, b.len());
        lemma_assignment_is_flow(inst, b);
        assert forall|h: Seq<int>| #[trigger] is_flow(edges, h) implies flow_value(edges, h)
            <= flow_value(edges, g) by {
            lemma_value_bounded(inst, h);
        }
        assert(is_max_flow(edges, g));
    }
}

} // verus!
