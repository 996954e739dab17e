use suppositions::generators::{booleans, u64s, u8s, vecs, Generator};
use suppositions::{property, CheckConfig, CheckOutcome, CheckResult};
use suppositions::properties::{step, Attempt, RunCounts, RunEnd, Step};

fn failed<T, R>(outcome: &CheckOutcome<T, R>) -> bool {
    matches!(outcome, CheckOutcome::Failed { .. })
}

#[test]
fn some_approximation_of_usage() {
    let outcome = property(vecs(booleans())).check(|l| {
        let rev = l.iter().cloned().rev().collect::<Vec<_>>();
        let rev2 = rev.into_iter().rev().collect::<Vec<_>>();
        return rev2 == l;
    });
    assert!(matches!(outcome, CheckOutcome::Passed));
}

#[test]
fn trivial_pass() {
    assert!(matches!(property(booleans()).check(|_| true), CheckOutcome::Passed));
}

#[test]
fn trivial_result_pass() {
    let outcome = property(booleans()).check(|_| -> Result<(), ()> { Ok(()) });
    assert!(matches!(outcome, CheckOutcome::Passed));
}

#[test]
fn trivial_failure_is_found() {
    assert!(failed(&property(booleans()).check(|_| false)));
}

#[test]
fn trivial_result_failure_is_found() {
    let outcome = property(booleans()).check(|_| -> Result<(), ()> { Err(()) });
    assert!(failed(&outcome));
}

#[test]
fn failing_result_is_reported() {
    let outcome =
        property(booleans()).check(|_| -> Result<(), &'static str> { Err("horrible failure") });
    match outcome {
        CheckOutcome::Failed { result, .. } => assert_eq!(result, Err("horrible failure")),
        _ => panic!("expected a failure"),
    }
}

#[test]
fn value_dependent_failure_shrinks_to_a_single_true() {
    let outcome = property(vecs(booleans())).check(|v| !v.into_iter().any(|t| t));
    match outcome {
        CheckOutcome::Failed { value, .. } => assert_eq!(value, Ok(vec![true])),
        _ => panic!("expected a failure"),
    }
}

#[test]
fn failing_u8_shrinks_to_the_boundary() {
    let outcome = property(u8s()).check(|n| n < 100);
    match outcome {
        CheckOutcome::Failed { value, .. } => assert_eq!(value, Ok(100)),
        _ => panic!("expected a failure"),
    }
}

#[test]
fn some_approximation_of_failing_example() {
    let outcome = property(vecs(booleans())).check(|l| {
        let rev = l.iter().cloned().rev().take(3).collect::<Vec<_>>();
        let rev2 = rev.into_iter().rev().collect::<Vec<_>>();
        rev2 == l
    });
    assert!(failed(&outcome));
}

#[test]
fn skipping_everything_gives_up() {
    let config = CheckConfig::default().num_tests(5).max_skips(3);
    let outcome = config.property(u64s().filter(|_| false)).check(|_| true);
    match outcome {
        CheckOutcome::TooManySkips { tests_run, num_tests, items_skipped } => {
            assert_eq!((tests_run, num_tests, items_skipped), (0, 5, 3));
        }
        _ => panic!("expected the run to be given up"),
    }
}

#[test]
fn no_tests_pass_trivially() {
    let config = CheckConfig::default().num_tests(0);
    assert!(matches!(config.property(booleans()).check(|_| false), CheckOutcome::Passed));
}

#[test]
fn check_results_say_what_fails() {
    assert!(false.is_failure());
    assert!(!true.is_failure());
    assert!(!().is_failure());
    assert!(Err::<bool, ()>(()).is_failure());
    assert!(Ok::<bool, ()>(false).is_failure());
    assert!(!Ok::<bool, ()>(true).is_failure());
}

#[test]
fn tuples_of_generators_draw_in_order() {
    let gen = (u8s(), booleans(), u8s());
    let pool = suppositions::data::InfoPool::of_vec(vec![4, 0x80, 6]);
    assert_eq!(gen.generate_from(&pool), Ok((4, true, 6)));
}

#[test]
fn a_run_step_counts_and_ends_as_the_attempt_says() {
    let config = CheckConfig::default().num_tests(10).max_skips(2);
    let c = RunCounts { tests_run: 3, items_skipped: 1, failed_draws: 0 };
    assert_eq!(
        step(&config, c, Attempt::Passed),
        Step::Go(RunCounts { tests_run: 4, items_skipped: 1, failed_draws: 0 })
    );
    assert_eq!(
        step(&config, c, Attempt::Failed),
        Step::End(RunEnd::Failed, RunCounts { tests_run: 4, items_skipped: 1, failed_draws: 0 })
    );
    assert_eq!(
        step(&config, c, Attempt::Skipped),
        Step::End(RunEnd::TooManySkips, RunCounts { tests_run: 3, items_skipped: 2, failed_draws: 0 })
    );
    assert_eq!(
        step(&config, c, Attempt::Exhausted),
        Step::Go(RunCounts { tests_run: 3, items_skipped: 1, failed_draws: 1 })
    );
    let full = RunCounts { tests_run: 0, items_skipped: 0, failed_draws: usize::MAX };
    assert_eq!(
        step(&config, full, Attempt::Exhausted),
        Step::End(RunEnd::TooManyFailedDraws, full)
    );
}
