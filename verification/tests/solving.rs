use case_allocation::extraction::{cost_of, extract, AssignError, Step};
use case_allocation::network::{Edge, FlowNetwork, Vertex};
use case_allocation::record::Record;
use case_allocation::solver::{has_room, in_solver_range, solve};

fn teams_scoring(scores: &[&[i32]]) -> Vec<Record> {
    scores
        .iter()
        .enumerate()
        .map(|(t, s)| Record { team_name: format!("team-{}", t), allocation: s.to_vec() })
        .collect()
}

fn cost(scores: &[&[i32]], a: &[usize]) -> i32 {
    a.iter().enumerate().map(|(t, j)| scores[t][*j]).sum()
}

fn allowed(a: &[usize], quotas: &[usize]) -> bool {
    (0..quotas.len()).all(|j| a.iter().filter(|c| **c == j).count() <= quotas[j])
}

fn cheapest(scores: &[&[i32]], quotas: &[usize]) -> Option<i32> {
    let teams = scores.len();
    let cases = quotas.len();
    let mut best = None;
    let mut a = vec![0usize; teams];
    loop {
        if a.iter().all(|j| *j < cases) && allowed(&a, quotas) {
            let c = cost(scores, &a);
            if best.map_or(true, |b| c < b) {
                best = Some(c);
            }
        }
        let mut t = 0;
        while t < teams {
            a[t] += 1;
            if a[t] < cases {
                break;
            }
            a[t] = 0;
            t += 1;
        }
        if t == teams {
            return best;
        }
    }
}

#[test]
fn network_has_the_edges_of_its_teams_and_cases() {
    let net = FlowNetwork::build(&teams_scoring(&[&[1, 2, 3], &[3, 1, 2]]), &vec![1, 2, 1]).unwrap();
    assert_eq!(net.num_teams, 2);
    assert_eq!(net.num_cases, 3);
    assert_eq!(net.edges.len(), 2 + 2 * 3 + 3);
    assert_eq!(net.edges[0], Edge { from: Vertex::Source, to: Vertex::Node(0), capacity: 1, cost: 0 });
    assert_eq!(net.edges[1], Edge { from: Vertex::Source, to: Vertex::Node(1), capacity: 1, cost: 0 });
    assert_eq!(net.edges[2], Edge { from: Vertex::Node(0), to: Vertex::Node(2), capacity: 1, cost: 1 });
    assert_eq!(net.edges[4], Edge { from: Vertex::Node(0), to: Vertex::Node(4), capacity: 1, cost: 3 });
    assert_eq!(net.edges[5], Edge { from: Vertex::Node(1), to: Vertex::Node(2), capacity: 1, cost: 3 });
    assert_eq!(net.edges[7], Edge { from: Vertex::Node(1), to: Vertex::Node(4), capacity: 1, cost: 2 });
    assert_eq!(net.edges[8], Edge { from: Vertex::Node(2), to: Vertex::Sink, capacity: 1, cost: 0 });
    assert_eq!(net.edges[9], Edge { from: Vertex::Node(3), to: Vertex::Sink, capacity: 2, cost: 0 });
    assert_eq!(net.edges[10], Edge { from: Vertex::Node(4), to: Vertex::Sink, capacity: 1, cost: 0 });
    assert_eq!(net.cost(1, 2), 2);
    assert_eq!(net.quota(1), 2);
}

#[test]
fn network_without_teams_has_only_the_edges_to_the_sink() {
    let net = FlowNetwork::build(&Vec::new(), &vec![3, 4]).unwrap();
    assert_eq!(net.edges.len(), 2);
    assert_eq!(solve(&net), Ok(Vec::new()));
}

#[test]
fn network_with_a_quota_beyond_32_bits_is_not_built() {
    assert!(FlowNetwork::build(&teams_scoring(&[&[1]]), &vec![1usize << 31]).is_none());
    assert!(FlowNetwork::build(&teams_scoring(&[&[1]]), &vec![(1usize << 31) - 1]).is_some());
}

#[test]
fn two_teams_with_opposite_wishes_get_their_first_choices() {
    let scores: [&[i32]; 2] = [&[1, 2], &[2, 1]];
    let net = FlowNetwork::build(&teams_scoring(&scores), &vec![1, 1]).unwrap();
    let a = solve(&net).unwrap();
    assert_eq!(a, vec![0, 1]);
    assert_eq!(cost(&scores, &a), 2);
}

#[test]
fn cost_of_an_assignment_is_what_its_teams_pay() {
    let scores: [&[i32]; 3] = [&[1, 2, 3], &[3, 1, 2], &[2, 3, 1]];
    let net = FlowNetwork::build(&teams_scoring(&scores), &vec![3, 3, 3]).unwrap();
    assert_eq!(cost_of(&net, &vec![0, 1, 2]), 3);
    assert_eq!(cost_of(&net, &vec![2, 0, 1]), 9);
    assert_eq!(cost_of(&net, &vec![1, 1, 1]), 6);
    assert_eq!(cost_of(&net, &solve(&net).unwrap()), 3);
    let none = FlowNetwork::build(&Vec::new(), &vec![1]).unwrap();
    assert_eq!(cost_of(&none, &Vec::new()), 0);
}

#[test]
fn two_teams_with_the_same_wish_share_the_cost() {
    let scores: [&[i32]; 2] = [&[1, 2], &[1, 2]];
    let net = FlowNetwork::build(&teams_scoring(&scores), &vec![1, 1]).unwrap();
    let a = solve(&net).unwrap();
    assert!(a == vec![0, 1] || a == vec![1, 0]);
    assert_eq!(cost(&scores, &a), 3);
}

#[test]
fn solution_is_as_cheap_as_any_assignment_of_three_teams() {
    let tables: [[&[i32]; 3]; 4] = [
        [&[1, 2, 3], &[1, 2, 3], &[1, 2, 3]],
        [&[1, 2, 3], &[2, 1, 3], &[3, 2, 1]],
        [&[3, 1, 2], &[3, 1, 2], &[2, 1, 3]],
        [&[2, 3, 1], &[1, 3, 2], &[2, 3, 1]],
    ];
    let quotas: [[usize; 3]; 4] = [[1, 1, 1], [2, 1, 1], [3, 0, 0], [1, 2, 2]];
    for scores in tables.iter() {
        for q in quotas.iter() {
            let net = FlowNetwork::build(&teams_scoring(scores), &q.to_vec()).unwrap();
            let a = solve(&net).unwrap();
            assert_eq!(a.len(), 3);
            assert!(allowed(&a, q));
            assert_eq!(Some(cost(scores, &a)), cheapest(scores, q));
        }
    }
}

/// A sequence of numbers that looks random and is the same on every run.
fn next(state: &mut u64) -> usize {
    *state = state.wrapping_mul(6364136223846793005).wrapping_add(1442695040888963407);
    (*state >> 33) as usize
}

fn ranking(state: &mut u64, cases: usize) -> Vec<i32> {
    let mut scores: Vec<i32> = (1..=cases as i32).collect();
    for i in (1..cases).rev() {
        let k = next(state) % (i + 1);
        scores.swap(i, k);
    }
    scores
}

#[test]
fn solution_is_as_cheap_as_any_assignment_of_many_instances() {
    let mut state = 2021u64;
    for _ in 0..300 {
        let teams = next(&mut state) % 6;
        let cases = 1 + next(&mut state) % 4;
        let rankings: Vec<Vec<i32>> = (0..teams).map(|_| ranking(&mut state, cases)).collect();
        let scores: Vec<&[i32]> = rankings.iter().map(|r| r.as_slice()).collect();
        let quotas: Vec<usize> = (0..cases).map(|_| next(&mut state) % 4).collect();
        let net = FlowNetwork::build(&teams_scoring(&scores), &quotas).unwrap();
        match solve(&net) {
            Ok(a) => {
                assert_eq!(a.len(), teams);
                assert!(a.iter().all(|j| *j < cases));
                assert!(allowed(&a, &quotas));
                assert_eq!(Some(cost(&scores, &a)), cheapest(&scores, &quotas));
            }
            Err(error) => {
                assert_eq!(error, AssignError::Infeasible);
                assert!(quotas.iter().sum::<usize>() < teams);
                assert_eq!(cheapest(&scores, &quotas), None);
            }
        }
    }
}

/// Whether moving teams from case to case along a chain or a ring can make the assignment
/// cheaper without breaking a quota. An assignment is a cheapest one exactly where no such
/// move exists.
fn can_be_improved(scores: &[&[i32]], quotas: &[usize], a: &[usize]) -> bool {
    let cases = quotas.len();
    let far = i64::MAX / 4;
    let mut gain = vec![vec![far; cases]; cases];
    for (t, from) in a.iter().enumerate() {
        for to in 0..cases {
            if to != *from {
                let change = (scores[t][to] - scores[t][*from]) as i64;
                gain[*from][to] = gain[*from][to].min(change);
            }
        }
    }
    for over in 0..cases {
        for from in 0..cases {
            for to in 0..cases {
                let through = gain[from][over] + gain[over][to];
                if gain[from][over] < far && gain[over][to] < far && through < gain[from][to] {
                    gain[from][to] = through;
                }
            }
        }
    }
    let load = |j: usize| a.iter().filter(|c| **c == j).count();
    (0..cases).any(|j| gain[j][j] < 0)
        || (0..cases).any(|from| {
            (0..cases).any(|to| from != to && load(to) < quotas[to] && gain[from][to] < 0)
        })
}

#[test]
fn solution_of_many_teams_cannot_be_improved() {
    let mut state = 77u64;
    for _ in 0..60 {
        let cases = 2 + next(&mut state) % 8;
        let teams = next(&mut state) % 40;
        let rankings: Vec<Vec<i32>> = (0..teams).map(|_| ranking(&mut state, cases)).collect();
        let scores: Vec<&[i32]> = rankings.iter().map(|r| r.as_slice()).collect();
        let mut quotas: Vec<usize> = (0..cases).map(|_| next(&mut state) % 8).collect();
        let room: usize = quotas.iter().sum();
        if room < teams {
            quotas[0] += teams - room;
        }
        let net = FlowNetwork::build(&teams_scoring(&scores), &quotas).unwrap();
        let a = solve(&net).unwrap();
        assert_eq!(a.len(), teams);
        assert!(allowed(&a, &quotas));
        assert!(!can_be_improved(&scores, &quotas, &a));
    }
}

#[test]
fn improvement_is_found_where_there_is_one() {
    let scores: [&[i32]; 2] = [&[1, 2], &[2, 1]];
    assert!(can_be_improved(&scores, &[1, 1], &[1, 0]));
    assert!(!can_be_improved(&scores, &[1, 1], &[0, 1]));
    assert!(can_be_improved(&scores, &[2, 2], &[1, 1]));
}

#[test]
fn solution_does_not_need_rankings() {
    let scores: [&[i32]; 3] = [&[0, 0, 5], &[7, 7, 7], &[0, 100, 100]];
    let quotas = vec![1, 1, 1];
    let net = FlowNetwork::build(&teams_scoring(&scores), &quotas).unwrap();
    let a = solve(&net).unwrap();
    assert!(allowed(&a, &quotas));
    assert_eq!(Some(cost(&scores, &a)), cheapest(&scores, &quotas));
    assert_eq!(cost(&scores, &a), 7);
}

#[test]
fn negative_costs_are_left_to_no_solver() {
    let net = FlowNetwork::build(&teams_scoring(&[&[-1, 2]]), &vec![1, 1]).unwrap();
    assert_eq!(solve(&net), Err(AssignError::TooLarge));
}

#[test]
fn solving_twice_costs_the_same() {
    let scores: [&[i32]; 4] = [&[1, 2, 3], &[1, 3, 2], &[2, 1, 3], &[1, 2, 3]];
    let net = FlowNetwork::build(&teams_scoring(&scores), &vec![2, 1, 1]).unwrap();
    let first = solve(&net).unwrap();
    let second = solve(&net).unwrap();
    assert_eq!(cost(&scores, &first), cost(&scores, &second));
}

#[test]
fn quotas_below_the_number_of_teams_are_infeasible() {
    let net = FlowNetwork::build(&teams_scoring(&[&[1, 2], &[2, 1], &[1, 2]]), &vec![1, 1]).unwrap();
    assert!(!has_room(&net));
    assert_eq!(solve(&net), Err(AssignError::Infeasible));
}

#[test]
fn teams_without_cases_are_infeasible() {
    let net = FlowNetwork::build(&teams_scoring(&[&[]]), &Vec::new()).unwrap();
    assert_eq!(solve(&net), Err(AssignError::Infeasible));
}

#[test]
fn costs_beyond_the_bound_are_too_large() {
    let net = FlowNetwork { num_teams: 1, num_cases: 1, edges: vec![
        Edge { from: Vertex::Source, to: Vertex::Node(0), capacity: 1, cost: 0 },
        Edge { from: Vertex::Node(0), to: Vertex::Node(1), capacity: 1, cost: 0x1000_0000 },
        Edge { from: Vertex::Node(1), to: Vertex::Sink, capacity: 1, cost: 0 },
    ] };
    assert!(!in_solver_range(&net.edges));
    assert_eq!(solve(&net), Err(AssignError::TooLarge));
}

#[test]
fn range_of_the_solver_has_its_limits() {
    let edge = |capacity: i32, cost: i32| Edge { from: Vertex::Source, to: Vertex::Sink, capacity, cost };
    assert!(in_solver_range(&vec![]));
    assert!(in_solver_range(&vec![edge(0x3fff_ffff, 1)]));
    assert!(!in_solver_range(&vec![edge(0x4000_0000, 1)]));
    assert!(!in_solver_range(&vec![edge(0x3fff_ffff, 1), edge(1, 0)]));
    assert!(in_solver_range(&vec![edge(1, 0x0fff_ffff)]));
    assert!(!in_solver_range(&vec![edge(1, 0x1000_0000)]));
    assert!(!in_solver_range(&vec![edge(1, 0x0800_0000), edge(0, 0x0800_0000)]));
    assert!(in_solver_range(&vec![edge(8, 0x0fff_ffff)]));
    assert!(!in_solver_range(&vec![edge(9, 0x0fff_ffff)]));
    assert!(!in_solver_range(&vec![edge(-1, 0)]));
    assert!(!in_solver_range(&vec![edge(1, -1)]));
}

fn path(team: usize, case: usize) -> Vec<Step> {
    vec![
        Step { from: Vertex::Source, to: Vertex::Node(team), amount: 1, cost: 0 },
        Step { from: Vertex::Node(team), to: Vertex::Node(case), amount: 1, cost: 0 },
        Step { from: Vertex::Node(case), to: Vertex::Sink, amount: 1, cost: 0 },
    ]
}

#[test]
fn extraction_reads_the_case_of_each_team() {
    let net = FlowNetwork::build(&teams_scoring(&[&[1, 2], &[2, 1]]), &vec![1, 1]).unwrap();
    assert_eq!(extract(&net, 2, &vec![path(1, 3), path(0, 2)]), Ok(vec![0, 1]));
    assert_eq!(extract(&net, 4, &vec![path(0, 3), path(1, 2)]), Ok(vec![1, 0]));
}

#[test]
fn extraction_of_too_few_paths_is_infeasible() {
    let net = FlowNetwork::build(&teams_scoring(&[&[1, 2], &[2, 1]]), &vec![1, 1]).unwrap();
    assert_eq!(extract(&net, 1, &vec![path(0, 2)]), Err(AssignError::Infeasible));
    assert_eq!(extract(&net, 0, &Vec::new()), Err(AssignError::Infeasible));
}

#[test]
fn extraction_refuses_what_is_no_assignment() {
    let net = FlowNetwork::build(&teams_scoring(&[&[1, 2], &[2, 1]]), &vec![1, 1]).unwrap();
    let internal = Err(AssignError::Internal);
    assert_eq!(extract(&net, 2, &vec![path(0, 2), path(1, 3), path(1, 2)]), internal);
    assert_eq!(extract(&net, 2, &vec![path(0, 2), path(0, 3)]), internal);
    assert_eq!(extract(&net, 3, &vec![path(0, 2), path(1, 2)]), internal);
    assert_eq!(extract(&net, 3, &vec![path(0, 2), path(1, 3)]), internal);
    assert_eq!(extract(&net, 2, &vec![path(0, 2), path(2, 3)]), internal);
    assert_eq!(extract(&net, 2, &vec![path(0, 1), path(1, 3)]), internal);
    assert_eq!(extract(&net, 2, &vec![path(0, 4), path(1, 3)]), internal);
    let mut short = path(0, 2);
    short.pop();
    assert_eq!(extract(&net, 2, &vec![short, path(1, 3)]), internal);
    let mut to_sink = path(0, 2);
    to_sink[0].to = Vertex::Sink;
    to_sink[1].from = Vertex::Sink;
    assert_eq!(extract(&net, 2, &vec![to_sink, path(1, 3)]), internal);
}

#[test]
fn extraction_refuses_what_is_no_path_of_one_unit() {
    let net = FlowNetwork::build(&teams_scoring(&[&[1, 2], &[2, 1]]), &vec![1, 1]).unwrap();
    let internal = Err(AssignError::Internal);
    assert_eq!(extract(&net, 2, &vec![path(0, 2), path(1, 3)]), Ok(vec![0, 1]));
    let mut not_from_source = path(0, 2);
    not_from_source[0].from = Vertex::Node(1);
    assert_eq!(extract(&net, 2, &vec![not_from_source, path(1, 3)]), internal);
    let mut not_to_sink = path(0, 2);
    not_to_sink[2].to = Vertex::Node(3);
    assert_eq!(extract(&net, 2, &vec![not_to_sink, path(1, 3)]), internal);
    let mut broken_after_team = path(0, 2);
    broken_after_team[1].from = Vertex::Node(1);
    assert_eq!(extract(&net, 2, &vec![broken_after_team, path(1, 3)]), internal);
    let mut broken_after_case = path(0, 2);
    broken_after_case[2].from = Vertex::Node(3);
    assert_eq!(extract(&net, 2, &vec![broken_after_case, path(1, 3)]), internal);
    for step in 0..3 {
        for amount in [0, 2] {
            let mut heavy = path(0, 2);
            heavy[step].amount = amount;
            assert_eq!(extract(&net, 2, &vec![heavy, path(1, 3)]), internal);
        }
    }
}
