use case_allocation::quota::{max_teams_per_case, total_weight, Case};

fn cases_weighing(weights: &[usize]) -> Vec<Case> {
    weights.iter().map(|w| Case { name: format!("weight-{}", w), weight: *w }).collect()
}

#[test]
fn quotas_of_nine_teams_and_nine_cases() {
    let cases = cases_weighing(&[12, 14, 14, 10, 10, 7, 12, 9, 14]);
    assert_eq!(total_weight(&cases), 102);
    assert_eq!(max_teams_per_case(9, &cases), vec![2, 2, 2, 1, 1, 1, 2, 1, 2]);
}

#[test]
fn quotas_without_teams_are_one_each() {
    assert_eq!(max_teams_per_case(0, &cases_weighing(&[3, 0, 5])), vec![1, 1, 1]);
}

#[test]
fn quota_of_a_single_case_is_one_more_than_the_teams() {
    assert_eq!(max_teams_per_case(7, &cases_weighing(&[4])), vec![8]);
}

#[test]
fn quotas_do_not_overflow_on_large_weights() {
    let big = usize::MAX;
    assert_eq!(max_teams_per_case(10, &cases_weighing(&[big, big])), vec![6, 6]);
}
