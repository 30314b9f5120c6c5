//! The flow network of an assignment problem: a source, one vertex for each team, one for each
//! case, and a sink.

use vstd::prelude::*;
use vstd::arithmetic::div_mod::lemma_fundamental_div_mod_converse;
use crate::record::{complete_records, records_view, Record, RecordView};

verus! {

/// A vertex of a flow network.
#[derive(Clone, Copy, Debug, PartialEq, Eq, Structural)]
pub enum Vertex {
    Source,
    Sink,
    Node(usize),
}

/// A directed edge with its capacity and its cost for each unit of flow.
#[derive(Clone, Copy, Debug, PartialEq, Eq, Structural)]
pub struct Edge {
    pub from: Vertex,
    pub to: Vertex,
    pub capacity: i32,
    pub cost: i32,
}

/// An assignment problem: what each team pays for each case, and how many teams each case takes.
pub struct Instance {
    pub costs: Seq<Seq<int>>,
    pub quotas: Seq<int>,
}

impl Instance {
    /// How many teams there are.
    pub open spec fn num_teams(self) -> int {
        self.costs.len() as int
    }

    /// How many cases there are.
    pub open spec fn num_cases(self) -> int {
        self.quotas.len() as int
    }

    /// One edge from the source to each team, one from each team to each case, and one from
    /// each case to the sink.
    pub open spec fn num_edges(self) -> int {
        self.num_teams() + self.num_teams() * self.num_cases() + self.num_cases()
    }

    /// The vertices of the network: the source, the sink, one vertex for each team, and
    /// after those one for each case.
    pub open spec fn has_vertex(self, v: Vertex) -> bool {
        match v {
            Vertex::Source => true,
            Vertex::Sink => true,
            Vertex::Node(k) => k < self.num_teams() + self.num_cases(),
        }
    }

    /// The set of the vertices of the network.
    pub open spec fn vertices(self) -> Set<Vertex> {
        Set::new(|v: Vertex| self.has_vertex(v))
    }

    /// How many vertices the network has: the source, the sink, and one for each team and
    /// each case.
    pub open spec fn num_vertices(self) -> int {
        2 + self.num_teams() + self.num_cases()
    }

    /// The network has as many vertices as `num_vertices` says.
    pub proof fn lemma_vertex_count(self)
        requires
            self.num_teams() + self.num_cases() <= usize::MAX,
        ensures
            self.vertices().finite(),
            self.vertices().len() == self.num_vertices(),
    {
        let n = (self.num_teams() + self.num_cases()) as nat;
        lemma_nodes_below(n);
        let nodes = nodes_below(n);
        assert(self.vertices() =~= nodes.insert(Vertex::Source).insert(Vertex::Sink));
    }

    /// The edge at position `i` starts or ends at `v`.
    pub open spec fn touches(self, i: int, v: Vertex) -> bool {
        self.edge_at(i).from == v || self.edge_at(i).to == v
    }

    /// Every vertex of a team or a case is at an end of an edge: a team where its edge from
    /// the source ends, a case where its edge to the sink starts.
    pub proof fn lemma_vertex_used(self, k: int)
        requires
            self.representable(),
            0 <= k < self.num_teams() + self.num_cases(),
        ensures
            exists|i: int| 0 <= i < self.num_edges() && #[trigger] self.touches(
                i,
                Vertex::Node(k as usize),
            ),
    {
        self.lemma_sink_start();
        if k < self.num_teams() {
            self.lemma_source_edge(k);
            assert(self.touches(self.source_edge(k), Vertex::Node(k as usize)));
        } else {
            let j = k - self.num_teams();
            self.lemma_sink_edge(j);
            assert(self.touches(self.sink_edge(j), Vertex::Node(k as usize)));
        }
    }

    /// Every team has a cost for every case.
    pub open spec fn wf(self) -> bool {
        forall|t: int| 0 <= t < self.num_teams() ==> (#[trigger] self.costs[t]).len() == self.num_cases()
    }

    /// The network of the instance can be held: its edges can be counted, and its costs and
    /// quotas are costs and capacities of edges.
    pub open spec fn representable(self) -> bool {
        &&& self.wf()
        &&& self.num_edges() <= usize::MAX
        &&& forall|t: int, j: int|
            0 <= t < self.num_teams() && 0 <= j < self.num_cases() ==> i32::MIN
                <= #[trigger] self.costs[t][j] <= i32::MAX
        &&& forall|j: int| 0 <= j < self.num_cases() ==> 0 <= #[trigger] self.quotas[j] <= i32::MAX
    }

    /// The vertex of team `t`.
    pub open spec fn team_vertex(self, t: int) -> Vertex {
        Vertex::Node(t as usize)
    }

    /// The vertex of case `j`. The vertices of the cases come after those of the teams.
    pub open spec fn case_vertex(self, j: int) -> Vertex {
        Vertex::Node((self.num_teams() + j) as usize)
    }

    /// Where the edge from the source to team `t` stands.
    pub open spec fn source_edge(self, t: int) -> int {
        t
    }

    /// Where the edge from team `t` to case `j` stands.
    pub open spec fn team_edge(self, t: int, j: int) -> int {
        self.num_teams() + t * self.num_cases() + j
    }

    /// Where the edge from case `j` to the sink stands.
    pub open spec fn sink_edge(self, j: int) -> int {
        self.num_teams() + self.num_teams() * self.num_cases() + j
    }

    /// The edge at position `i`. The edges from the source come first, in the order of the
    /// teams; then the edges of each team, team by team, in the order of the cases; then the
    /// edges to the sink, in the order of the cases.
    #[verifier::opaque]
    pub open spec fn edge_at(self, i: int) -> Edge {
        if i < self.num_teams() {
            Edge { from: Vertex::Source, to: self.team_vertex(i), capacity: 1, cost: 0 }
        } else if i < self.sink_edge(0) {
            let t = (i - self.num_teams()) / self.num_cases();
            let j = (i - self.num_teams()) % self.num_cases();
            Edge {
                from: self.team_vertex(t),
                to: self.case_vertex(j),
                capacity: 1,
                cost: self.costs[t][j] as i32,
            }
        } else {
            let j = i - self.sink_edge(0);
            Edge {
                from: self.case_vertex(j),
                to: Vertex::Sink,
                capacity: self.quotas[j] as i32,
                cost: 0,
            }
        }
    }

    /// The edges of the network, in order.
    pub open spec fn edges(self) -> Seq<Edge> {
        Seq::new(self.num_edges() as nat, |i: int| self.edge_at(i))
    }

    /// The edge from the source to team `t`.
    pub proof fn lemma_source_edge(self, t: int)
        requires
            0 <= t < self.num_teams(),
        ensures
            self.edge_at(self.source_edge(t)) == (Edge {
                from: Vertex::Source,
                to: self.team_vertex(t),
                capacity: 1,
                cost: 0,
            }),
    {
        reveal(Instance::edge_at);
    }

    /// The edges to the sink start where those of the teams end.
    pub proof fn lemma_sink_start(self)
        ensures
            self.sink_edge(0) >= self.num_teams(),
            self.sink_edge(0) == self.team_edge(self.num_teams(), 0),
            self.team_edge(0, 0) == self.num_teams(),
    {
        assert(self.num_teams() * self.num_cases() >= 0) by (nonlinear_arith)
            requires
                self.num_teams() >= 0,
                self.num_cases() >= 0,
        ;
        assert(0 * self.num_cases() == 0) by (nonlinear_arith);
    }

    /// The edge from case `j` to the sink.
    pub proof fn lemma_sink_edge(self, j: int)
        requires
            0 <= j < self.num_cases(),
        ensures
            self.edge_at(self.sink_edge(j)) == (Edge {
                from: self.case_vertex(j),
                to: Vertex::Sink,
                capacity: self.quotas[j] as i32,
                cost: 0,
            }),
            self.sink_edge(j) >= self.num_teams(),
    {
        reveal(Instance::edge_at);
        assert(self.num_teams() * self.num_cases() >= 0) by (nonlinear_arith)
            requires
                self.num_teams() >= 0,
                self.num_cases() >= 0,
        ;
    }

    /// The edges of a team stand between those from the source and those to the sink, and the
    /// edge of team `t` to case `j` is the only one at its position.
    pub proof fn lemma_team_edge(self, t: int, j: int)
        requires
            0 <= t < self.num_teams(),
            0 <= j < self.num_cases(),
        ensures
            self.num_teams() <= self.team_edge(t, j) < self.sink_edge(0),
            (self.team_edge(t, j) - self.num_teams()) / self.num_cases() == t,
            (self.team_edge(t, j) - self.num_teams()) % self.num_cases() == j,
            self.edge_at(self.team_edge(t, j)) == (Edge {
                from: self.team_vertex(t),
                to: self.case_vertex(j),
                capacity: 1,
                cost: self.costs[t][j] as i32,
            }),
    {
        reveal(Instance::edge_at);
        let c = self.num_cases();
        let n = self.num_teams();
        assert(0 <= t * c && t * c + c <= n * c) by (nonlinear_arith)
            requires
                0 <= t < n,
                0 < c,
        ;
        lemma_fundamental_div_mod_converse(t * c + j, c, t, j);
    }

    /// Every edge joins two vertices of the network.
    pub proof fn lemma_edge_vertices(self, i: int)
        requires
            self.representable(),
            0 <= i < self.num_edges(),
        ensures
            self.has_vertex(self.edge_at(i).from),
            self.has_vertex(self.edge_at(i).to),
    {
        self.lemma_sink_start();
        if i < self.num_teams() {
            self.lemma_source_edge(i);
        } else if i < self.sink_edge(0) {
            self.lemma_team_edge_at(i);
            self.lemma_team_edge(
                (i - self.num_teams()) / self.num_cases(),
                (i - self.num_teams()) % self.num_cases(),
            );
        } else {
            self.lemma_sink_edge(i - self.sink_edge(0));
        }
    }

    /// Every position between the edges from the source and those to the sink holds the edge
    /// of one team to one case.
    pub proof fn lemma_team_edge_at(self, i: int)
        requires
            self.num_teams() <= i < self.sink_edge(0),
        ensures
            self.num_cases() > 0,
            0 <= (i - self.num_teams()) / self.num_cases() < self.num_teams(),
            0 <= (i - self.num_teams()) % self.num_cases() < self.num_cases(),
            i == self.team_edge(
                (i - self.num_teams()) / self.num_cases(),
                (i - self.num_teams()) % self.num_cases(),
            ),
    {
        let c = self.num_cases();
        let n = self.num_teams();
        let k = i - n;
        assert(c > 0) by (nonlinear_arith)
            requires
                0 <= k < n * c,
                0 <= c,
        ;
        vstd::arithmetic::div_mod::lemma_fundamental_div_mod(k, c);
        vstd::arithmetic::div_mod::lemma_mod_pos_bound(k, c);
        let q = k / c;
        let r = k % c;
        assert(0 <= q < n) by (nonlinear_arith)
            requires
                k == c * q + r,
                0 <= r < c,
                0 <= k < n * c,
        ;
        assert(c * q == q * c) by (nonlinear_arith);
    }
}

/// The vertices `Node(k)` with `k` below `n`.
pub open spec fn nodes_below(n: nat) -> Set<Vertex> {
    Set::new(|v: Vertex| v matches Vertex::Node(k) && k < n)
}

/// There are `n` vertices `Node(k)` with `k` below `n`.
pub proof fn lemma_nodes_below(n: nat)
    requires
        n <= usize::MAX + 1,
    ensures
        nodes_below(n).finite(),
        nodes_below(n).len() == n,
    decreases n,
{
    if n == 0 {
        assert(nodes_below(0) =~= Set::<Vertex>::empty());
    } else {
        lemma_nodes_below((n - 1) as nat);
        let last = Vertex::Node((n - 1) as usize);
        assert(nodes_below(n) =~= nodes_below((n - 1) as nat).insert(last));
    }
}

/// The instance that records and quotas describe: the cost of a case to a team is the score
/// that the team gave to it.
pub open spec fn instance_of(records: Seq<RecordView>, quotas: Seq<usize>) -> Instance {
    Instance {
        costs: Seq::new(
            records.len(),
            |t: int|
                Seq::new(records[t].allocation.len(), |j: int| records[t].allocation[j] as int),
        ),
        quotas: Seq::new(quotas.len(), |j: int| quotas[j] as int),
    }
}

/// A flow network for an assignment problem.
#[derive(Clone, Debug, PartialEq, Eq)]
pub struct FlowNetwork {
    pub num_teams: usize,
    pub num_cases: usize,
    pub edges: Vec<Edge>,
}

/// The assignment problem that edges in the order of a network stand for.
pub open spec fn instance_from(num_teams: int, num_cases: int, edges: Seq<Edge>) -> Instance {
    Instance {
        costs: Seq::new(
            num_teams as nat,
            |t: int|
                Seq::new(
                    num_cases as nat,
                    |j: int| edges[num_teams + t * num_cases + j].cost as int,
                ),
        ),
        quotas: Seq::new(
            num_cases as nat,
            |j: int| edges[num_teams + num_teams * num_cases + j].capacity as int,
        ),
    }
}

/// The edges of the network of an instance stand for that instance.
pub proof fn lemma_instance_from_edges(inst: Instance)
    requires
        inst.representable(),
    ensures
        instance_from(inst.num_teams(), inst.num_cases(), inst.edges()) == inst,
{
    let read = instance_from(inst.num_teams(), inst.num_cases(), inst.edges());
    assert forall|t: int| 0 <= t < inst.num_teams() implies #[trigger] read.costs[t]
        == inst.costs[t] by {
        assert forall|j: int| 0 <= j < inst.num_cases() implies #[trigger] read.costs[t][j]
            == inst.costs[t][j] by {
            inst.lemma_team_edge(t, j);
            inst.lemma_sink_edge(0);
        }
        assert(read.costs[t] =~= inst.costs[t]);
    }
    assert forall|j: int| 0 <= j < inst.num_cases() implies #[trigger] read.quotas[j]
        == inst.quotas[j] by {
        inst.lemma_sink_edge(j);
    }
    assert(read.costs =~= inst.costs);
    assert(read.quotas =~= inst.quotas);
}

/// The edges from the source, one to each team.
fn source_edges(num_teams: usize) -> (edges: Vec<Edge>)
    ensures
        edges.len() == num_teams,
        forall|t: int|
            0 <= t < num_teams ==> #[trigger] edges[t] == (Edge {
                from: Vertex::Source,
                to: Vertex::Node(t as usize),
                capacity: 1,
                cost: 0,
            }),
{
    let mut edges: Vec<Edge> = Vec::new();
    let mut t: usize = 0;
    while t < num_teams
        invariant
            t <= num_teams,
            edges.len() == t,
            forall|k: int|
                0 <= k < t ==> #[trigger] edges[k] == (Edge {
                    from: Vertex::Source,
                    to: Vertex::Node(k as usize),
                    capacity: 1,
                    cost: 0,
                }),
        decreases num_teams - t,
    {
        edges.push(Edge { from: Vertex::Source, to: Vertex::Node(t), capacity: 1, cost: 0 });
        t = t + 1;
    }
    edges
}

/// Adds the edges of team `t`, one to each case, with the team's scores as their costs.
fn push_team_edges(edges: &mut Vec<Edge>, num_teams: usize, t: usize, scores: &Vec<i32>)
    requires
        num_teams + scores.len() <= usize::MAX,
    ensures
        final(edges).len() == old(edges).len() + scores.len(),
        forall|i: int| 0 <= i < old(edges).len() ==> final(edges)[i] == old(edges)[i],
        forall|j: int|
            0 <= j < scores.len() ==> #[trigger] final(edges)[old(edges).len() + j] == (Edge {
                from: Vertex::Node(t),
                to: Vertex::Node((num_teams + j) as usize),
                capacity: 1,
                cost: scores[j],
            }),
{
    let mut j: usize = 0;
    while j < scores.len()
        invariant
            j <= scores.len(),
            num_teams + scores.len() <= usize::MAX,
            edges.len() == old(edges).len() + j,
            forall|i: int| 0 <= i < old(edges).len() ==> edges[i] == old(edges)[i],
            forall|k: int|
                0 <= k < j ==> #[trigger] edges[old(edges).len() + k] == (Edge {
                    from: Vertex::Node(t),
                    to: Vertex::Node((num_teams + k) as usize),
                    capacity: 1,
                    cost: scores[k],
                }),
        decreases scores.len() - j,
    {
        edges.push(
            Edge {
                from: Vertex::Node(t),
                to: Vertex::Node(num_teams + j),
                capacity: 1,
                cost: scores[j],
            },
        );
        j = j + 1;
    }
}

/// Adds the edges to the sink, one from each case, with the quotas as their capacities.
fn push_sink_edges(edges: &mut Vec<Edge>, num_teams: usize, quotas: &Vec<usize>)
    requires
        num_teams + quotas.len() <= usize::MAX,
        forall|j: int| 0 <= j < quotas.len() ==> quotas[j] <= i32::MAX,
    ensures
        final(edges).len() == old(edges).len() + quotas.len(),
        forall|i: int| 0 <= i < old(edges).len() ==> final(edges)[i] == old(edges)[i],
        forall|j: int|
            0 <= j < quotas.len() ==> #[trigger] final(edges)[old(edges).len() + j] == (Edge {
                from: Vertex::Node((num_teams + j) as usize),
                to: Vertex::Sink,
                capacity: quotas[j] as i32,
                cost: 0,
            }),
{
    let mut j: usize = 0;
    while j < quotas.len()
        invariant
            j <= quotas.len(),
            num_teams + quotas.len() <= usize::MAX,
            forall|k: int| 0 <= k < quotas.len() ==> quotas[k] <= i32::MAX,
            edges.len() == old(edges).len() + j,
            forall|i: int| 0 <= i < old(edges).len() ==> edges[i] == old(edges)[i],
            forall|k: int|
                0 <= k < j ==> #[trigger] edges[old(edges).len() + k] == (Edge {
                    from: Vertex::Node((num_teams + k) as usize),
                    to: Vertex::Sink,
                    capacity: quotas[k] as i32,
                    cost: 0,
                }),
        decreases quotas.len() - j,
    {
        edges.push(
            Edge {
                from: Vertex::Node(num_teams + j),
                to: Vertex::Sink,
                capacity: quotas[j] as i32,
                cost: 0,
            },
        );
        j = j + 1;
    }
}

/// The number of edges of a network, where it can be counted.
fn count_edges(num_teams: usize, num_cases: usize) -> (r: Option<usize>)
    ensures
        match r {
            Some(n) => n == num_teams + num_teams * num_cases + num_cases,
            None => num_teams + num_teams * num_cases + num_cases > usize::MAX,
        },
{
    let team_edges = num_teams.checked_mul(num_cases)?;
    let inner_edges = num_teams.checked_add(team_edges)?;
    inner_edges.checked_add(num_cases)
}

/// Whether every quota can be the capacity of an edge.
fn quotas_fit(quotas: &Vec<usize>) -> (fit: bool)
    ensures
        fit == forall|j: int| 0 <= j < quotas.len() ==> quotas[j] <= i32::MAX,
{
    let mut j: usize = 0;
    while j < quotas.len()
        invariant
            j <= quotas.len(),
            forall|k: int| 0 <= k < j ==> quotas[k] <= i32::MAX,
        decreases quotas.len() - j,
    {
        if quotas[j] > i32::MAX as usize {
            return false;
        }
        j = j + 1;
    }
    true
}

impl FlowNetwork {
    /// The assignment problem that the network stands for, read from its edges.
    pub open spec fn instance(&self) -> Instance {
        instance_from(self.num_teams as int, self.num_cases as int, self.edges@)
    }

    /// The edges are those of the network of an assignment problem, in their order.
    pub open spec fn wf(&self) -> bool {
        &&& self.instance().representable()
        &&& self.edges@ == self.instance().edges()
    }

    /// What team `t` pays for case `j`.
    pub fn cost(&self, t: usize, j: usize) -> (c: i32)
        requires
            self.wf(),
            t < self.num_teams,
            j < self.num_cases,
        ensures
            c == self.instance().costs[t as int][j as int],
    {
        proof {
            self.instance().lemma_team_edge(t as int, j as int);
            self.instance().lemma_sink_start();
            assert(0 <= t * self.num_cases <= self.num_teams * self.num_cases)
                by (nonlinear_arith)
                requires
                    0 <= t < self.num_teams,
                    0 <= self.num_cases,
            ;
        }
        self.edges[self.num_teams + t * self.num_cases + j].cost
    }

    /// How many teams case `j` takes.
    pub fn quota(&self, j: usize) -> (q: usize)
        requires
            self.wf(),
            j < self.num_cases,
        ensures
            q == self.instance().quotas[j as int],
    {
        proof {
            self.instance().lemma_sink_edge(j as int);
            self.instance().lemma_sink_start();
            assert(0 <= self.num_teams * self.num_cases) by (nonlinear_arith)
                requires
                    0 <= self.num_teams,
                    0 <= self.num_cases,
            ;
        }
        self.edges[self.num_teams + self.num_teams * self.num_cases + j].capacity as usize
    }

    /// Builds the network of the teams and the cases: its vertices are the source, the sink
    /// and one for each team and each case, and its edges are those of `Instance::edges`.
    ///
    /// Every record must have one score for each case. The result is `None` where the network
    /// cannot be held: where its edges cannot be counted, or a quota is no capacity of an
    /// edge.
    pub fn build(records: &Vec<Record>, quotas: &Vec<usize>) -> (r: Option<FlowNetwork>)
        requires
            complete_records(records_view(records@), quotas.len() as int),
        ensures
            match r {
                Some(net) => {
                    &&& net.wf()
                    &&& net.instance() == instance_of(records_view(records@), quotas@)
                    &&& net.num_teams == records.len()
                    &&& net.num_cases == quotas.len()
                    &&& net.edges.len() == records.len() + records.len() * quotas.len()
                        + quotas.len()
                    &&& net.instance().vertices().finite()
                    &&& net.instance().vertices().len() == 2 + records.len() + quotas.len()
                    &&& forall|i: int|
                        0 <= i < net.edges.len() ==> net.instance().vertices().contains(
                            (#[trigger] net.edges[i]).from,
                        ) && net.instance().vertices().contains(net.edges[i].to)
                },
                None => !instance_of(records_view(records@), quotas@).representable(),
            },
    {
        let num_teams = records.len();
        let num_cases = quotas.len();
        let ghost inst = instance_of(records_view(records@), quotas@);
        proof {
            lemma_instance_of(records_view(records@), quotas@);
        }
        if count_edges(num_teams, num_cases).is_none() {
            return None;
        }
        if !quotas_fit(quotas) {
            proof {
                let j = choose|j: int| 0 <= j < quotas.len() && !(quotas[j] <= i32::MAX);
                assert(inst.quotas[j] > i32::MAX);
            }
            return None;
        }
        assert(inst.representable());
        proof {
            inst.lemma_sink_start();
        }
        let mut edges = source_edges(num_teams);
        proof {
            assert forall|i: int| 0 <= i < edges.len() implies #[trigger] edges[i] == inst.edge_at(
                i,
            ) by {
                inst.lemma_source_edge(i);
            }
        }
        let mut t: usize = 0;
        while t < num_teams
            invariant
                t <= num_teams,
                num_teams == records.len(),
                num_teams == inst.num_teams(),
                num_cases == inst.num_cases(),
                inst == instance_of(records_view(records@), quotas@),
                inst.representable(),
                inst.sink_edge(0) + num_cases <= usize::MAX,
                inst.sink_edge(0) >= num_teams,
                edges.len() == inst.team_edge(t as int, 0),
                forall|i: int| 0 <= i < edges.len() ==> #[trigger] edges[i] == inst.edge_at(i),
            decreases num_teams - t,
        {
            let ghost before = edges@;
            assert(inst.costs[t as int].len() == num_cases);
            assert(records_view(records@)[t as int].allocation.len() == num_cases);
            push_team_edges(&mut edges, num_teams, t, &records[t].allocation);
            proof {
                assert forall|i: int| 0 <= i < edges.len() implies #[trigger] edges[i]
                    == inst.edge_at(i) by {
                    if i >= before.len() {
                        let j = i - before.len();
                        inst.lemma_team_edge(t as int, j);
                        assert(edges[before.len() + j] == inst.edge_at(i));
                    }
                }
                assert(inst.team_edge(t as int, 0) + num_cases == inst.team_edge(t + 1, 0))
                    by (nonlinear_arith)
                    requires
                        inst.team_edge(t as int, 0) == num_teams + t * num_cases,
                        inst.team_edge(t + 1, 0) == num_teams + (t + 1) * num_cases,
                ;
            }
            t = t + 1;
        }
        let ghost before = edges@;
        push_sink_edges(&mut edges, num_teams, quotas);
        let net = FlowNetwork { num_teams, num_cases, edges };
        proof {
            assert forall|i: int| 0 <= i < net.edges.len() implies #[trigger] net.edges[i]
                == inst.edge_at(i) by {
                if i >= before.len() {
                    let j = i - before.len();
                    inst.lemma_sink_edge(j);
                    assert(net.edges[before.len() + j] == inst.edge_at(i));
                }
            }
            assert(net.edges@ =~= inst.edges());
            lemma_instance_from_edges(inst);
            assert forall|i: int| 0 <= i < net.edges.len() implies inst.vertices().contains(
                (#[trigger] net.edges[i]).from,
            ) && inst.vertices().contains(net.edges[i].to) by {
                inst.lemma_edge_vertices(i);
            }
            inst.lemma_vertex_count();
        }
        Some(net)
    }
}

/// The instance of records with one score for each case has a cost for every team and every
/// case, and each cost is a score.
pub proof fn lemma_instance_of(records: Seq<RecordView>, quotas: Seq<usize>)
    requires
        complete_records(records, quotas.len() as int),
    ensures
        instance_of(records, quotas).wf(),
        instance_of(records, quotas).num_teams() == records.len(),
        instance_of(records, quotas).num_cases() == quotas.len(),
        forall|t: int, j: int|
            0 <= t < records.len() && 0 <= j < quotas.len() ==> #[trigger] instance_of(
                records,
                quotas,
            ).costs[t][j] == records[t].allocation[j],
{
    let inst = instance_of(records, quotas);
    assert forall|t: int| 0 <= t < inst.num_teams() implies (#[trigger] inst.costs[t]).len()
        == inst.num_cases() by {
        assert(records[t].allocation.len() == quotas.len());
    }
    assert forall|t: int, j: int| 0 <= t < records.len() && 0 <= j < quotas.len() implies 
        #[trigger] inst.costs[t][j] == records[t].allocation[j] by {
        assert(records[t].allocation.len() == quotas.len());
    }
}

} // verus!
