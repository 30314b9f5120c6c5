//! From the paths of a flow to the assignment that they stand for.

use vstd::prelude::*;
use crate::assignment::{
    assignment_cost,
    cost_upto,
    lemma_load_grows,
    load,
    load_upto,
    valid_assignment,
};
use crate::network::{FlowNetwork, Instance, Vertex};

verus! {

/// One edge of a path from the source to the sink, with the amount that the path carries
/// over it and the cost of the edge.
#[derive(Clone, Copy, Debug, PartialEq, Eq, Structural)]
pub struct Step {
    pub from: Vertex,
    pub to: Vertex,
    pub amount: u32,
    pub cost: i32,
}

/// Why no assignment is returned.
#[derive(Clone, Copy, Debug, PartialEq, Eq, Structural)]
pub enum AssignError {
    /// The cases cannot take all the teams.
    Infeasible,
    /// The network is more than the machine can hold or the solver can work on.
    TooLarge,
    /// There are cases, but none of them has any weight.
    NoWeight,
    /// What the solver returned is no assignment of all the teams at the cost that it gave.
    Internal,
}

/// The steps of each path.
pub open spec fn paths_view(paths: Seq<Vec<Step>>) -> Seq<Seq<Step>> {
    Seq::new(paths.len(), |i: int| paths[i]@)
}

/// The team that a path goes over: the vertex at which its first edge ends.
pub open spec fn path_team(path: Seq<Step>) -> int {
    match path[0].to {
        Vertex::Node(k) => k as int,
        _ => -1,
    }
}

/// The case that a path goes over: the vertex at which its second edge ends.
pub open spec fn path_case(inst: Instance, path: Seq<Step>) -> int {
    match path[1].to {
        Vertex::Node(k) => k - inst.num_teams(),
        _ => -1,
    }
}

/// The path carries one unit over three edges: from the source to a team of the instance,
/// from the team to a case of the instance, and from the case to the sink.
pub open spec fn path_ok(inst: Instance, path: Seq<Step>) -> bool {
    &&& path.len() == 3
    &&& 0 <= path_team(path) < inst.num_teams()
    &&& 0 <= path_case(inst, path) < inst.num_cases()
    &&& path[0].from == Vertex::Source
    &&& path[1].from == path[0].to
    &&& path[2].from == path[1].to
    &&& path[2].to == Vertex::Sink
    &&& path[0].amount == 1
    &&& path[1].amount == 1
    &&& path[2].amount == 1
}

/// One of the first `n` paths goes over team `t`.
pub open spec fn on_path(paths: Seq<Seq<Step>>, t: int, n: int) -> bool {
    exists|i: int| 0 <= i < n && #[trigger] path_team(paths[i]) == t
}

/// There is one path for each team, each path goes over a team and the case that `a` gives
/// to it, and each team is on exactly one path.
pub open spec fn encodes(inst: Instance, paths: Seq<Seq<Step>>, a: Seq<usize>) -> bool {
    &&& paths.len() == inst.num_teams()
    &&& a.len() == inst.num_teams()
    &&& forall|i: int|
        0 <= i < paths.len() ==> path_ok(inst, #[trigger] paths[i]) && a[path_team(paths[i])]
            == path_case(inst, paths[i])
    &&& forall|i: int, k: int|
        0 <= i < k < paths.len() ==> path_team(#[trigger] paths[i]) != path_team(
            #[trigger] paths[k],
        )
    &&& forall|t: int| 0 <= t < inst.num_teams() ==> #[trigger] on_path(paths, t, paths.len() as int)
}

/// The paths stand for the assignment `a`, which is allowed and costs `total`.
pub open spec fn accepts(inst: Instance, total: int, paths: Seq<Seq<Step>>, a: Seq<usize>) -> bool {
    &&& encodes(inst, paths, a)
    &&& valid_assignment(inst, a)
    &&& assignment_cost(inst, a) == total
}

/// What is made of a total cost and paths: with fewer paths than teams the cases cannot take
/// all the teams; otherwise the assignment that the paths stand for, where there is one that is
/// accepted.
pub open spec fn extraction(
    inst: Instance,
    total: int,
    paths: Seq<Seq<Step>>,
    r: Result<Vec<usize>, AssignError>,
) -> bool {
    match r {
        Ok(a) => accepts(inst, total, paths, a@),
        Err(AssignError::Infeasible) => paths.len() < inst.num_teams(),
        Err(AssignError::Internal) => paths.len() >= inst.num_teams() && forall|a: Seq<usize>|
            !accepts(inst, total, paths, a),
        Err(AssignError::TooLarge) => false,
        Err(AssignError::NoWeight) => false,
    }
}

/// Paths stand for one assignment at most.
pub proof fn lemma_encodes_unique(
    inst: Instance,
    paths: Seq<Seq<Step>>,
    a: Seq<usize>,
    b: Seq<usize>,
)
    requires
        encodes(inst, paths, a),
        encodes(inst, paths, b),
    ensures
        a == b,
{
    assert forall|t: int| 0 <= t < a.len() implies a[t] == b[t] by {
        assert(on_path(paths, t, paths.len() as int));
        let i = choose|i: int| 0 <= i < paths.len() && #[trigger] path_team(paths[i]) == t;
        assert(path_ok(inst, paths[i]));
    }
    assert(a =~= b);
}

/// An assignment that paths stand for gives each team a case of the instance.
pub proof fn lemma_encodes_cases(inst: Instance, paths: Seq<Seq<Step>>, a: Seq<usize>)
    requires
        encodes(inst, paths, a),
    ensures
        forall|t: int| 0 <= t < a.len() ==> #[trigger] a[t] < inst.num_cases(),
{
    assert forall|t: int| 0 <= t < a.len() implies #[trigger] a[t] < inst.num_cases() by {
        assert(on_path(paths, t, paths.len() as int));
        let i = choose|i: int| 0 <= i < paths.len() && #[trigger] path_team(paths[i]) == t;
        assert(path_ok(inst, paths[i]));
    }
}

/// A vector of `n` copies of `value`.
fn filled(n: usize, value: usize) -> (v: Vec<usize>)
    ensures
        v.len() == n,
        forall|i: int| 0 <= i < n ==> v[i] == value,
{
    let mut v: Vec<usize> = Vec::new();
    let mut i: usize = 0;
    while i < n
        invariant
            i <= n,
            v.len() == i,
            forall|k: int| 0 <= k < i ==> v[k] == value,
        decreases n - i,
    {
        v.push(value);
        i = i + 1;
    }
    v
}

/// The team and the case that a path goes over, where it is a path as `path_ok` asks.
fn read_path(net: &FlowNetwork, path: &Vec<Step>) -> (r: Option<(usize, usize)>)
    requires
        net.wf(),
    ensures
        match r {
            Some((t, j)) => path_ok(net.instance(), path@) && t == path_team(path@) && j
                == path_case(net.instance(), path@),
            None => !path_ok(net.instance(), path@),
        },
{
    if path.len() != 3 {
        return None;
    }
    let first = path[0];
    let second = path[1];
    let third = path[2];
    if first.from != Vertex::Source || second.from != first.to || third.from != second.to
        || third.to != Vertex::Sink {
        return None;
    }
    if first.amount != 1 || second.amount != 1 || third.amount != 1 {
        return None;
    }
    let t = match path[0].to {
        Vertex::Node(k) => k,
        _ => {
            return None;
        },
    };
    let k = match path[1].to {
        Vertex::Node(k) => k,
        _ => {
            return None;
        },
    };
    if t >= net.num_teams || k < net.num_teams || k - net.num_teams >= net.num_cases {
        return None;
    }
    Some((t, k - net.num_teams))
}

/// Reads the case of each team from the paths, where each team is on exactly one path.
fn read_paths(net: &FlowNetwork, paths: &Vec<Vec<Step>>) -> (r: Option<Vec<usize>>)
    requires
        net.wf(),
        paths.len() == net.num_teams,
    ensures
        match r {
            Some(a) => encodes(net.instance(), paths_view(paths@), a@),
            None => forall|a: Seq<usize>| !encodes(net.instance(), paths_view(paths@), a),
        },
{
    let ghost inst = net.instance();
    let ghost pv = paths_view(paths@);
    let num_teams = net.num_teams;
    let num_cases = net.num_cases;
    let mut case_of = filled(num_teams, num_cases);
    let mut i: usize = 0;
    while i < num_teams
        invariant
            i <= num_teams,
            net.wf(),
            inst == net.instance(),
            pv == paths_view(paths@),
            num_teams == net.num_teams,
            num_cases == net.num_cases,
            paths.len() == num_teams,
            case_of.len() == num_teams,
            forall|k: int|
                0 <= k < i ==> path_ok(inst, #[trigger] pv[k]) && case_of[path_team(pv[k])]
                    == path_case(inst, pv[k]),
            forall|k: int, l: int|
                0 <= k < l < i ==> path_team(#[trigger] pv[k]) != path_team(#[trigger] pv[l]),
            forall|t: int|
                0 <= t < num_teams ==> (#[trigger] case_of[t] != num_cases <==> on_path(
                    pv,
                    t,
                    i as int,
                )),
            forall|t: int| 0 <= t < num_teams ==> #[trigger] case_of[t] <= num_cases,
        decreases num_teams - i,
    {
        assert(pv[i as int] == paths[i as int]@);
        let (t, j) = match read_path(net, &paths[i]) {
            Some(pair) => pair,
            None => {
                assert forall|a: Seq<usize>| !encodes(inst, pv, a) by {
                    if encodes(inst, pv, a) {
                        assert(path_ok(inst, pv[i as int]));
                    }
                }
                return None;
            },
        };
        if case_of[t] != num_cases {
            proof {
                assert(on_path(pv, t as int, i as int));
                let k = choose|k: int| 0 <= k < i && #[trigger] path_team(pv[k]) == t;
                assert forall|a: Seq<usize>| !encodes(inst, pv, a) by {
                    if encodes(inst, pv, a) {
                        assert(path_team(pv[k]) != path_team(pv[i as int]));
                    }
                }
            }
            return None;
        }
        let ghost before = case_of@;
        case_of[t] = j;
        proof {
            assert forall|k: int| 0 <= k < i + 1 implies path_ok(inst, #[trigger] pv[k])
                && case_of[path_team(pv[k])] == path_case(inst, pv[k]) by {
                if k < i {
                    assert(path_team(pv[k]) != t);
                }
            }
            assert forall|s: int| 0 <= s < num_teams implies (#[trigger] case_of[s] != num_cases
                <==> on_path(pv, s, i + 1)) by {
                if s != t {
                    assert(case_of[s] == before[s]);
                    assert(before[s] != num_cases <==> on_path(pv, s, i as int));
                    if on_path(pv, s, i as int) {
                        let k = choose|k: int| 0 <= k < i && #[trigger] path_team(pv[k]) == s;
                        assert(0 <= k < i + 1 && path_team(pv[k]) == s);
                    }
                    if on_path(pv, s, i + 1) {
                        let k = choose|k: int| 0 <= k < i + 1 && #[trigger] path_team(pv[k]) == s;
                        assert(0 <= k < i && path_team(pv[k]) == s);
                    }
                } else {
                    assert(path_team(pv[i as int]) == t);
                }
            }
        }
        i = i + 1;
    }
    let mut t: usize = 0;
    while t < num_teams
        invariant
            t <= num_teams,
            num_teams == net.num_teams,
            num_cases == net.num_cases,
            inst == net.instance(),
            case_of.len() == num_teams,
            pv.len() == num_teams,
            pv == paths_view(paths@),
            forall|k: int|
                0 <= k < num_teams ==> path_ok(inst, #[trigger] pv[k]) && case_of[path_team(pv[k])]
                    == path_case(inst, pv[k]),
            forall|k: int, l: int|
                0 <= k < l < num_teams ==> path_team(#[trigger] pv[k]) != path_team(
                    #[trigger] pv[l],
                ),
            forall|s: int|
                0 <= s < num_teams ==> (#[trigger] case_of[s] != num_cases <==> on_path(
                    pv,
                    s,
                    num_teams as int,
                )),
            forall|s: int| 0 <= s < t ==> #[trigger] case_of[s] != num_cases,
        decreases num_teams - t,
    {
        if case_of[t] == num_cases {
            assert forall|a: Seq<usize>| !encodes(inst, pv, a) by {
                if encodes(inst, pv, a) {
                    assert(on_path(pv, t as int, pv.len() as int));
                }
            }
            return None;
        }
        t = t + 1;
    }
    proof {
        assert forall|s: int| 0 <= s < inst.num_teams() implies #[trigger] on_path(
            pv,
            s,
            pv.len() as int,
        ) by {
            assert(case_of[s] != num_cases);
        }
    }
    Some(case_of)
}

/// Whether no case has more teams than its quota.
fn within_quotas(net: &FlowNetwork, a: &Vec<usize>) -> (ok: bool)
    requires
        net.wf(),
        a.len() == net.num_teams,
        forall|t: int| 0 <= t < a.len() ==> #[trigger] a[t] < net.num_cases,
    ensures
        ok == valid_assignment(net.instance(), a@),
{
    let ghost inst = net.instance();
    let num_teams = net.num_teams;
    let num_cases = net.num_cases;
    let mut counts = filled(num_cases, 0);
    let mut t: usize = 0;
    while t < num_teams
        invariant
            t <= num_teams,
            net.wf(),
            inst == net.instance(),
            num_teams == net.num_teams,
            num_cases == net.num_cases,
            a.len() == num_teams,
            counts.len() == num_cases,
            forall|s: int| 0 <= s < a.len() ==> #[trigger] a[s] < num_cases,
            forall|j: int|
                0 <= j < num_cases ==> #[trigger] counts[j] == load_upto(a@, j, t as nat)
                    && counts[j] <= inst.quotas[j],
        decreases num_teams - t,
    {
        let j = a[t];
        let count = counts[j];
        if count >= net.quota(j) {
            proof {
                lemma_load_grows(a@, j as int, (t + 1) as nat, a@.len());
                assert(load(a@, j as int) > inst.quotas[j as int]);
            }
            return false;
        }
        counts[j] = count + 1;
        t = t + 1;
    }
    proof {
        assert forall|j: int| 0 <= j < inst.num_cases() implies #[trigger] load(a@, j)
            <= inst.quotas[j] by {
            assert(counts[j] == load_upto(a@, j, t as nat));
        }
    }
    true
}

/// What all teams together pay for their cases, where `a` gives each team a case.
pub fn cost_of(net: &FlowNetwork, a: &Vec<usize>) -> (total: i128)
    requires
        net.wf(),
        a.len() == net.num_teams,
        forall|t: int| 0 <= t < a.len() ==> #[trigger] a[t] < net.num_cases,
    ensures
        total == assignment_cost(net.instance(), a@),
{
    let ghost inst = net.instance();
    let mut total: i128 = 0;
    let mut t: usize = 0;
    while t < net.num_teams
        invariant
            t <= net.num_teams,
            net.wf(),
            inst == net.instance(),
            a.len() == net.num_teams,
            forall|s: int| 0 <= s < a.len() ==> #[trigger] a[s] < net.num_cases,
            total == cost_upto(inst, a@, t as nat),
            -0x8000_0000 * t <= total <= 0x8000_0000 * t,
        decreases net.num_teams - t,
    {
        total = total + net.cost(t, a[t]) as i128;
        t = t + 1;
    }
    total
}

/// Reads the assignment from what the solver returned: a total cost, and paths from the
/// source to the sink.
///
/// With fewer paths than teams the cases cannot take all the teams. Otherwise each path must
/// carry one unit from the source over one team and one case to the sink, each team must be
/// on exactly one path, no case may have more teams than its quota, and the teams must pay
/// the total cost; where any of this fails, the solver is at fault.
pub fn extract(net: &FlowNetwork, total: i32, paths: &Vec<Vec<Step>>) -> (r: Result<
    Vec<usize>,
    AssignError,
>)
    requires
        net.wf(),
    ensures
        extraction(net.instance(), total as int, paths_view(paths@), r),
{
    let ghost inst = net.instance();
    let ghost pv = paths_view(paths@);
    if paths.len() < net.num_teams {
        return Err(AssignError::Infeasible);
    }
    if paths.len() > net.num_teams {
        return Err(AssignError::Internal);
    }
    let a = match read_paths(net, paths) {
        Some(a) => a,
        None => {
            return Err(AssignError::Internal);
        },
    };
    proof {
        lemma_encodes_cases(inst, pv, a@);
        assert forall|b: Seq<usize>| encodes(inst, pv, b) implies b == a@ by {
            lemma_encodes_unique(inst, pv, a@, b);
        }
    }
    if !within_quotas(net, &a) {
        return Err(AssignError::Internal);
    }
    if cost_of(net, &a) != total as i128 {
        return Err(AssignError::Internal);
    }
    Ok(a)
}

} // verus!
