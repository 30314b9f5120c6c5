use case_allocation::engine::{assign, render, report, run, RunError};
use case_allocation::extraction::AssignError;
use case_allocation::quota::{max_teams_per_case, Case};
use case_allocation::record::{AllocationError, InputError, Record};

const CASE_NAMES: [&str; 9] =
    ["Amber", "Birch", "Cedar", "Dune", "Ember", "Fjord", "Grove", "Heath", "Isle"];

const TEAM_NAMES: [&str; 9] =
    ["Ants", "Bees", "Cats", "Does", "Eels", "Frogs", "Goats", "Hares", "Ibises"];

fn weighted_cases(weights: &[usize]) -> Vec<Case> {
    weights
        .iter()
        .enumerate()
        .map(|(j, w)| Case { name: String::from(CASE_NAMES[j]), weight: *w })
        .collect()
}

fn ranked_teams(scores: &[&[i32]]) -> Vec<Record> {
    scores
        .iter()
        .enumerate()
        .map(|(t, s)| Record { team_name: String::from(TEAM_NAMES[t]), allocation: s.to_vec() })
        .collect()
}

fn loads(a: &[usize], cases: usize) -> Vec<usize> {
    (0..cases).map(|j| a.iter().filter(|c| **c == j).count()).collect()
}

#[test]
fn line_names_the_team_and_the_case() {
    assert_eq!(render("Rocket", "Cisco"), "Team \"Rocket\" -> Case \"Cisco\"");
    assert_eq!(render("", ""), "Team \"\" -> Case \"\"");
    assert_eq!(render("A \"B\"", "Ü"), "Team \"A \"B\"\" -> Case \"Ü\"");
}

#[test]
fn report_has_one_line_for_each_team_in_their_order() {
    let lines = report(&ranked_teams(&[&[1, 2], &[2, 1], &[1, 2]]), &weighted_cases(&[1, 1]), &vec![1, 0, 1]);
    assert_eq!(
        lines,
        vec![
            "Team \"Ants\" -> Case \"Birch\"",
            "Team \"Bees\" -> Case \"Amber\"",
            "Team \"Cats\" -> Case \"Birch\"",
        ]
    );
    assert!(report(&Vec::new(), &weighted_cases(&[1]), &Vec::new()).is_empty());
}

#[test]
fn each_team_gets_one_case_within_the_quotas() {
    let weights = [12, 14, 14, 10, 10, 7, 12, 9, 14];
    let scores: [&[i32]; 9] = [
        &[1, 2, 3, 4, 5, 6, 7, 8, 9],
        &[1, 2, 3, 4, 5, 6, 7, 8, 9],
        &[1, 2, 3, 4, 5, 6, 7, 8, 9],
        &[9, 8, 7, 6, 5, 4, 3, 2, 1],
        &[2, 1, 4, 3, 6, 5, 8, 7, 9],
        &[1, 3, 2, 5, 4, 7, 6, 9, 8],
        &[5, 4, 3, 2, 1, 9, 8, 7, 6],
        &[1, 9, 2, 8, 3, 7, 4, 6, 5],
        &[3, 1, 2, 6, 4, 5, 9, 7, 8],
    ];
    let cases = weighted_cases(&weights);
    let a = assign(&ranked_teams(&scores), &cases).unwrap();
    let quotas = max_teams_per_case(9, &cases);
    assert_eq!(a.len(), 9);
    assert!(a.iter().all(|j| *j < 9));
    let loads = loads(&a, 9);
    assert!((0..9).all(|j| loads[j] <= quotas[j]));
    let cost: i32 = a.iter().enumerate().map(|(t, j)| scores[t][*j]).sum();
    assert_eq!(cost, 1 + 1 + 2 + 1 + 1 + 2 + 1 + 3 + 2);
}

#[test]
fn a_single_case_takes_every_team() {
    let a = assign(&ranked_teams(&[&[1], &[1], &[1]]), &weighted_cases(&[5])).unwrap();
    assert_eq!(a, vec![0, 0, 0]);
}

#[test]
fn no_teams_give_an_empty_assignment() {
    assert_eq!(assign(&Vec::new(), &weighted_cases(&[1, 2])), Ok(Vec::new()));
    assert_eq!(assign(&Vec::new(), &Vec::new()), Ok(Vec::new()));
}

#[test]
fn cases_without_weight_give_no_quotas() {
    assert_eq!(assign(&ranked_teams(&[&[1, 2]]), &weighted_cases(&[0, 0])), Err(AssignError::NoWeight));
}

#[test]
fn teams_without_any_case_cannot_be_assigned() {
    assert_eq!(assign(&ranked_teams(&[&[]]), &Vec::new()), Err(AssignError::Infeasible));
}

#[test]
fn quotas_leave_room_for_every_team() {
    for teams in 0..40usize {
        for weights in [&[1usize][..], &[0, 1], &[3, 3, 3], &[12, 14, 14, 10, 10, 7, 12, 9, 14], &[1, 1000], &[7, 0, 0, 2]] {
            let quotas = max_teams_per_case(teams, &weighted_cases(weights));
            assert!(quotas.iter().sum::<usize>() > teams);
        }
    }
}

#[test]
fn ranking_file_is_turned_into_lines() {
    let text = "Timestamp,Team,A,B\n\
                2021/03/19 10:15:00,One,1,2\n\
                2021/03/19 10:16:00,Two,2,1\n";
    let allocation = run(text, &weighted_cases(&[1, 1])).unwrap();
    assert_eq!(allocation.assignment, vec![0, 1]);
    assert_eq!(
        allocation.lines,
        vec!["Team \"One\" -> Case \"Amber\"", "Team \"Two\" -> Case \"Birch\""]
    );
}

#[test]
fn ranking_file_with_only_headings_gives_no_lines() {
    let allocation = run("Timestamp,Team,A,B\n", &weighted_cases(&[1, 1])).unwrap();
    assert!(allocation.assignment.is_empty());
    assert!(allocation.lines.is_empty());
}

#[test]
fn ranking_file_with_a_bad_line_is_refused_before_solving() {
    let text = "Timestamp,Team,A,B\n\
                2021/03/19 10:15:00,One,1,2\n\
                2021/03/19 10:16:00,Two,2,3\n";
    assert_eq!(
        run(text, &weighted_cases(&[1, 1])),
        Err(RunError::Input(InputError::Allocation {
            team_name: String::from("Two"),
            reason: AllocationError::ScoreOutOfRange,
        }))
    );
    assert_eq!(
        run("headings\n\n", &weighted_cases(&[1, 1])),
        Err(RunError::Input(InputError::MissingTimestamp))
    );
}

#[test]
fn ranking_file_with_a_short_line_names_the_team() {
    let text = "Timestamp,Team,A,B,C\n2021-03-18 10:00:00,Team A,1,2\n";
    assert_eq!(
        run(text, &weighted_cases(&[1, 1, 1])),
        Err(RunError::Input(InputError::Allocation {
            team_name: String::from("Team A"),
            reason: AllocationError::MissingScore,
        }))
    );
}

#[test]
fn ranking_file_for_cases_without_weight_is_refused() {
    let text = "headings\n2021/03/19 10:15:00,One,1,2\n";
    assert_eq!(run(text, &weighted_cases(&[0, 0])), Err(RunError::Assign(AssignError::NoWeight)));
}
