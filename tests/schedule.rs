use ft_linear_regression::schedule::StopRule;

/// Drives a fresh rule with one flag per iteration; returns the iterations run.
fn run(max_iterations: usize, within: &[bool]) -> usize {
    let mut rule = StopRule::new(max_iterations);
    let mut k = 0;
    while !rule.is_finished() {
        rule.record_iteration(within[k]);
        k += 1;
    }
    rule.iterations_run()
}

#[test]
fn zero_cap_runs_nothing() {
    let rule = StopRule::new(0);
    assert!(rule.is_finished());
    assert_eq!(rule.iterations_run(), 0);
}

#[test]
fn cap_is_reached_without_convergence() {
    assert_eq!(run(1000, &vec![false; 1000]), 1000);
}

#[test]
fn first_iteration_has_no_previous_cost() {
    let mut rule = StopRule::new(10);
    rule.record_iteration(true);
    assert!(!rule.is_finished());
    assert!(!rule.converged);
    rule.record_iteration(true);
    assert!(rule.is_finished());
    assert_eq!(rule.iterations_run(), 2);
}

#[test]
fn stops_at_first_convergence() {
    let mut within = vec![false; 100];
    within[6] = true;
    within[9] = true;
    assert_eq!(run(100, &within), 7);
}

#[test]
fn cap_wins_over_late_convergence() {
    let mut within = vec![false; 10];
    within[5] = true;
    assert_eq!(run(5, &within), 5);
}
