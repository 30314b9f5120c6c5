//! Assignments of teams to cases: which are allowed, what they cost, and which are best.

use vstd::prelude::*;
use crate::network::Instance;

verus! {

/// How many of the first `n` teams are assigned to case `j`.
pub open spec fn load_upto(a: Seq<usize>, j: int, n: nat) -> int
    decreases n,
{
    if n == 0 {
        0
    } else {
        load_upto(a, j, (n - 1) as nat) + if a[n - 1] == j {
            1int
        } else {
            0int
        }
    }
}

/// How many teams are assigned to case `j`.
pub open spec fn load(a: Seq<usize>, j: int) -> int {
    load_upto(a, j, a.len())
}

/// What the first `n` teams pay for their cases.
pub open spec fn cost_upto(inst: Instance, a: Seq<usize>, n: nat) -> int
    decreases n,
{
    if n == 0 {
        0
    } else {
        cost_upto(inst, a, (n - 1) as nat) + inst.costs[n - 1][a[n - 1] as int]
    }
}

/// What all teams together pay for their cases.
pub open spec fn assignment_cost(inst: Instance, a: Seq<usize>) -> int {
    cost_upto(inst, a, a.len())
}

/// The sum of the first `n` quotas.
pub open spec fn quota_upto(inst: Instance, n: nat) -> int
    decreases n,
{
    if n == 0 {
        0
    } else {
        quota_upto(inst, (n - 1) as nat) + inst.quotas[n - 1]
    }
}

/// How many teams the cases take together.
pub open spec fn quota_total(inst: Instance) -> int {
    quota_upto(inst, inst.quotas.len())
}

/// Every team has one case, and no case has more teams than its quota.
pub open spec fn valid_assignment(inst: Instance, a: Seq<usize>) -> bool {
    &&& a.len() == inst.num_teams()
    &&& forall|t: int| 0 <= t < a.len() ==> #[trigger] a[t] < inst.num_cases()
    &&& forall|j: int| 0 <= j < inst.num_cases() ==> #[trigger] load(a, j) <= inst.quotas[j]
}

/// The assignment is allowed, and no allowed assignment costs less.
pub open spec fn is_optimal(inst: Instance, a: Seq<usize>) -> bool {
    &&& valid_assignment(inst, a)
    &&& forall|b: Seq<usize>| #[trigger]
        valid_assignment(inst, b) ==> assignment_cost(inst, a) <= assignment_cost(inst, b)
}

/// No case has more teams among the first than among all.
pub proof fn lemma_load_grows(a: Seq<usize>, j: int, n: nat, m: nat)
    requires
        n <= m,
    ensures
        0 <= load_upto(a, j, n) <= load_upto(a, j, m),
        load_upto(a, j, n) <= n,
    decreases m,
{
    if n < m {
        lemma_load_grows(a, j, n, (m - 1) as nat);
    } else if n > 0 {
        lemma_load_grows(a, j, (n - 1) as nat, (n - 1) as nat);
    }
}

/// The teams that the cases have among the first `n` teams are those `n` teams: nothing
/// more, and each of them once.
proof fn lemma_loads_add_up(inst: Instance, a: Seq<usize>, n: nat, c: nat)
    requires
        n <= a.len(),
        c <= inst.num_cases(),
        forall|t: int| 0 <= t < n ==> #[trigger] a[t] < inst.num_cases(),
    ensures
        loads_upto(a, n, c) == teams_below(a, n, c),
    decreases n,
{
    if n > 0 {
        lemma_loads_add_up(inst, a, (n - 1) as nat, c);
        lemma_loads_step(a, n, c);
    } else {
        lemma_loads_none(a, c);
    }
}

/// The sum of the loads that the first `c` cases have of the first `n` teams.
pub open spec fn loads_upto(a: Seq<usize>, n: nat, c: nat) -> int
    decreases c,
{
    if c == 0 {
        0
    } else {
        loads_upto(a, n, (c - 1) as nat) + load_upto(a, c - 1, n)
    }
}

/// How many of the first `n` teams have one of the first `c` cases.
pub open spec fn teams_below(a: Seq<usize>, n: nat, c: nat) -> int
    decreases n,
{
    if n == 0 {
        0
    } else {
        teams_below(a, (n - 1) as nat, c) + if a[n - 1] < c {
            1int
        } else {
            0int
        }
    }
}

/// Of no teams, no case has any.
proof fn lemma_loads_none(a: Seq<usize>, c: nat)
    ensures
        loads_upto(a, 0, c) == 0,
    decreases c,
{
    if c > 0 {
        lemma_loads_none(a, (c - 1) as nat);
    }
}

/// One more team adds one to the loads of the cases among which its case is.
proof fn lemma_loads_step(a: Seq<usize>, n: nat, c: nat)
    requires
        n > 0,
    ensures
        loads_upto(a, n, c) == loads_upto(a, (n - 1) as nat, c) + if a[n - 1] < c {
            1int
        } else {
            0int
        },
    decreases c,
{
    if c > 0 {
        lemma_loads_step(a, n, (c - 1) as nat);
    }
}

/// The loads of the first `c` cases stay within their quotas together.
proof fn lemma_loads_within_quotas(inst: Instance, a: Seq<usize>, c: nat)
    requires
        c <= inst.num_cases(),
        forall|j: int| 0 <= j < inst.num_cases() ==> #[trigger] load(a, j) <= inst.quotas[j],
    ensures
        loads_upto(a, a.len(), c) <= quota_upto(inst, c),
    decreases c,
{
    if c > 0 {
        lemma_loads_within_quotas(inst, a, (c - 1) as nat);
        assert(load(a, c - 1) <= inst.quotas[c - 1]);
    }
}

/// Each of the first `n` teams has one of the cases.
proof fn lemma_all_teams_below(inst: Instance, a: Seq<usize>, n: nat)
    requires
        n <= a.len(),
        forall|t: int| 0 <= t < n ==> #[trigger] a[t] < inst.num_cases(),
    ensures
        teams_below(a, n, inst.num_cases() as nat) == n,
    decreases n,
{
    if n > 0 {
        lemma_all_teams_below(inst, a, (n - 1) as nat);
    }
}

/// Where an assignment is allowed, the cases have room for all the teams: where they have
/// not, no assignment is allowed.
pub proof fn lemma_valid_needs_room(inst: Instance, a: Seq<usize>)
    requires
        valid_assignment(inst, a),
    ensures
        inst.num_teams() <= quota_total(inst),
{
    let c = inst.num_cases() as nat;
    lemma_loads_add_up(inst, a, a.len(), c);
    lemma_all_teams_below(inst, a, a.len());
    lemma_loads_within_quotas(inst, a, c);
}

/// Where every one of the first `c` cases is full, their loads together are no less than
/// their quotas together.
proof fn lemma_full_cases(inst: Instance, a: Seq<usize>, c: nat)
    requires
        c <= inst.num_cases(),
        forall|j: int| 0 <= j < c ==> #[trigger] load(a, j) >= inst.quotas[j],
    ensures
        loads_upto(a, a.len(), c) >= quota_upto(inst, c),
    decreases c,
{
    if c > 0 {
        lemma_full_cases(inst, a, (c - 1) as nat);
        assert(load(a, c - 1) >= inst.quotas[c - 1]);
    }
}

/// Assignments that agree on the first `n` teams give each case the same load of them.
proof fn lemma_load_agrees(a: Seq<usize>, b: Seq<usize>, j: int, n: nat)
    requires
        forall|t: int| 0 <= t < n ==> a[t] == b[t],
    ensures
        load_upto(a, j, n) == load_upto(b, j, n),
    decreases n,
{
    if n > 0 {
        lemma_load_agrees(a, b, j, (n - 1) as nat);
    }
}

/// As many teams as the cases have room for can be given cases within the quotas.
proof fn lemma_place_teams(inst: Instance, n: nat) -> (a: Seq<usize>)
    requires
        n <= quota_total(inst),
        inst.num_cases() <= usize::MAX,
        forall|j: int| 0 <= j < inst.num_cases() ==> 0 <= #[trigger] inst.quotas[j],
    ensures
        a.len() == n,
        forall|t: int| 0 <= t < n ==> #[trigger] a[t] < inst.num_cases(),
        forall|j: int| 0 <= j < inst.num_cases() ==> #[trigger] load(a, j) <= inst.quotas[j],
    decreases n,
{
    if n == 0 {
        Seq::empty()
    } else {
        let before = lemma_place_teams(inst, (n - 1) as nat);
        let c = inst.num_cases() as nat;
        lemma_loads_add_up(inst, before, before.len(), c);
        lemma_all_teams_below(inst, before, before.len());
        if forall|j: int| 0 <= j < c ==> #[trigger] load(before, j) >= inst.quotas[j] {
            lemma_full_cases(inst, before, c);
        }
        let free = choose|j: int| 0 <= j < c && #[trigger] load(before, j) < inst.quotas[j];
        let a = before.push(free as usize);
        assert forall|j: int| 0 <= j < inst.num_cases() implies #[trigger] load(a, j)
            <= inst.quotas[j] by {
            lemma_load_agrees(a, before, j, (n - 1) as nat);
            assert(load(before, j) <= inst.quotas[j]);
        }
        a
    }
}

/// Where the cases have room for all the teams, an assignment is allowed. With
/// `lemma_valid_needs_room` this says that the teams can be assigned exactly where the quotas
/// together are no less than the number of teams.
pub proof fn lemma_room_suffices(inst: Instance)
    requires
        inst.num_teams() <= quota_total(inst),
        inst.num_cases() <= usize::MAX,
        forall|j: int| 0 <= j < inst.num_cases() ==> 0 <= #[trigger] inst.quotas[j],
    ensures
        exists|a: Seq<usize>| valid_assignment(inst, a),
{
    let a = lemma_place_teams(inst, inst.num_teams() as nat);
    assert(valid_assignment(inst, a));
}

/// Two best assignments of one instance cost the same, whichever teams they give to which
/// cases.
pub proof fn lemma_optimal_cost_unique(inst: Instance, a: Seq<usize>, b: Seq<usize>)
    requires
        is_optimal(inst, a),
        is_optimal(inst, b),
    ensures
        assignment_cost(inst, a) == assignment_cost(inst, b),
{
}

} // verus!
