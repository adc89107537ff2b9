use grafeo::testing::statement_failure::{
    disable_injection, enable_commit_failure_once, enable_statement_failure_after,
    maybe_fail_commit, maybe_fail_statement, with_commit_failure, with_statement_failure_after,
    FailureState, InjectedFailure,
};

#[test]
fn statement_fires_at_exact_count() {
    let mut state = FailureState::default();
    let result = with_statement_failure_after(&mut state, 3, |state| {
        let a = maybe_fail_statement(state);
        let b = maybe_fail_statement(state);
        let c = maybe_fail_statement(state);
        (a, b, c)
    });
    assert_eq!(result.0, Ok(()));
    assert_eq!(result.1, Ok(()));
    assert_eq!(result.2, Err(InjectedFailure));
}

#[test]
fn commit_fires_once() {
    let mut state = FailureState::default();
    let result = with_commit_failure(&mut state, |state| {
        let a = maybe_fail_commit(state);
        let b = maybe_fail_commit(state);
        (a, b)
    });
    assert_eq!(result.0, Err(InjectedFailure));
    assert_eq!(result.1, Ok(()), "commit trigger is one-shot");
}

#[test]
fn completes_when_count_exceeds_calls() {
    let mut state = FailureState::default();
    let result = with_statement_failure_after(&mut state, 100, |state| {
        let a = maybe_fail_statement(state);
        let b = maybe_fail_statement(state);
        (a, b)
    });
    assert_eq!(result.0, Ok(()));
    assert_eq!(result.1, Ok(()));
}

#[test]
fn disabled_by_default() {
    let mut state = FailureState::default();
    assert_eq!(maybe_fail_statement(&mut state), Ok(()));
    assert_eq!(maybe_fail_commit(&mut state), Ok(()));
}

#[test]
fn disable_resets_state() {
    let mut state = FailureState::default();
    enable_statement_failure_after(&mut state, 2);
    enable_commit_failure_once(&mut state);
    disable_injection(&mut state);
    assert_eq!(maybe_fail_statement(&mut state), Ok(()));
    assert_eq!(maybe_fail_statement(&mut state), Ok(()));
    assert_eq!(maybe_fail_commit(&mut state), Ok(()));
}
