//! Makes statements and commits fail on purpose.
//!
//! A test arms a failure, runs statements and commits, and each of these asks
//! whether it is its turn to fail. What is armed is a plain value; whoever runs
//! the statements keeps one per thread, so that tests do not disturb each other.

use vstd::prelude::*;

verus! {

/// The error of a statement or commit that was made to fail.
#[derive(Debug, Clone, Copy, PartialEq, Eq, Structural)]
pub struct InjectedFailure;

impl InjectedFailure {
    /// The text of the error.
    pub fn message(&self) -> (r: &'static str)
        ensures
            r@ == "injected test failure"@,
    {
        "injected test failure"
    }
}

/// Which failures are armed.
#[derive(Debug, Clone, Copy, PartialEq, Eq, Structural)]
pub struct FailureState {
    /// Statements until the one that fails.
    pub statement_counter: u64,
    /// Whether statements are counted.
    pub statement_enabled: bool,
    /// Whether the next commit fails.
    pub commit_trigger: bool,
}

/// Nothing is armed.
pub open spec fn disarmed() -> FailureState {
    FailureState {
        statement_counter: u64::MAX,
        statement_enabled: false,
        commit_trigger: false,
    }
}

/// The state after one statement.
pub open spec fn after_statement(s: FailureState) -> FailureState {
    if s.statement_enabled {
        FailureState { statement_counter: s.statement_counter.wrapping_sub(1), ..s }
    } else {
        s
    }
}

/// The state after `n` statements.
pub open spec fn after_statements(s: FailureState, n: nat) -> FailureState
    decreases n,
{
    if n == 0 {
        s
    } else {
        after_statement(after_statements(s, (n - 1) as nat))
    }
}

/// Whether the next statement fails.
pub open spec fn statement_fails(s: FailureState) -> bool {
    s.statement_enabled && s.statement_counter == 1
}

/// A failure that is armed for the `count`-th statement hits that statement alone,
/// and each later one passes: of all statements whose number the counter can
/// hold exactly the `count`-th fails. Beyond that the counter starts over, and so
/// do the numbers.
pub proof fn law_fires_at_exact_count(s: FailureState, count: u64, n: nat)
    requires
        s.statement_enabled,
        s.statement_counter == count,
    ensures
        n + 1 <= u64::MAX ==> (statement_fails(after_statements(s, n)) <==> n + 1 == count),
        statement_fails(after_statements(s, n)) <==> (n as int + 1) % (u64::MAX + 1) == count,
{
    lemma_counts_down(s, n);
}

proof fn lemma_counts_down(s: FailureState, n: nat)
    requires
        s.statement_enabled,
    ensures
        after_statements(s, n).statement_enabled,
        after_statements(s, n).statement_counter == (s.statement_counter - n) % (u64::MAX + 1),
    decreases n,
{
    if n > 0 {
        lemma_counts_down(s, (n - 1) as nat);
    }
}

/// Where no failure is armed, no statement fails.
pub proof fn law_disarmed_never_fires(s: FailureState, n: nat)
    requires
        !s.statement_enabled,
    ensures
        after_statements(s, n) == s,
        !statement_fails(after_statements(s, n)),
    decreases n,
{
    if n > 0 {
        law_disarmed_never_fires(s, (n - 1) as nat);
    }
}

/// Where nothing is armed, neither a statement nor a commit fails; a statement that is
/// counted brings the next failure nearer by one and leaves commits alone.
pub proof fn law_counting_statements(s: FailureState)
    ensures
        !disarmed().statement_enabled && !disarmed().commit_trigger,
        !statement_fails(disarmed()),
        after_statement(s).commit_trigger == s.commit_trigger,
        after_statement(s).statement_enabled == s.statement_enabled,
        s.statement_enabled && s.statement_counter > 0 ==> after_statement(s).statement_counter
            == s.statement_counter - 1,
        !s.statement_enabled ==> after_statement(s) == s,
        s.statement_enabled ==> (statement_fails(s) <==> s.statement_counter == 1),
{
}

impl Default for FailureState {
    fn default() -> (r: Self)
        ensures
            r == disarmed(),
    {
        FailureState {
            statement_counter: u64::MAX,
            statement_enabled: false,
            commit_trigger: false,
        }
    }
}

/// Counts a statement and fails if it is the one that was armed. Does nothing
/// while no statement failure is armed.
pub fn maybe_fail_statement(state: &mut FailureState) -> (r: Result<(), InjectedFailure>)
    ensures
        *final(state) == after_statement(*old(state)),
        r == (if statement_fails(*old(state)) {
            Err::<(), InjectedFailure>(InjectedFailure)
        } else {
            Ok(())
        }),
{
    if !state.statement_enabled {
        return Ok(());
    }
    let prev: u64 = state.statement_counter;
    state.statement_counter = prev.wrapping_sub(1);
    if prev == 1 {
        Err(InjectedFailure)
    } else {
        Ok(())
    }
}

/// Fails if a commit failure is armed, and disarms it.
pub fn maybe_fail_commit(state: &mut FailureState) -> (r: Result<(), InjectedFailure>)
    ensures
        *final(state) == (FailureState { commit_trigger: false, ..*old(state) }),
        r == (if old(state).commit_trigger {
            Err::<(), InjectedFailure>(InjectedFailure)
        } else {
            Ok(())
        }),
{
    if state.commit_trigger {
        state.commit_trigger = false;
        Err(InjectedFailure)
    } else {
        Ok(())
    }
}

/// Arms a failure of the `count`-th statement from now.
pub fn enable_statement_failure_after(state: &mut FailureState, count: u64)
    ensures
        *final(state) == (FailureState {
            statement_counter: count,
            statement_enabled: true,
            ..*old(state)
        }),
{
    state.statement_counter = count;
    state.statement_enabled = true;
}

/// Arms a failure of the next commit.
pub fn enable_commit_failure_once(state: &mut FailureState)
    ensures
        *final(state) == (FailureState { commit_trigger: true, ..*old(state) }),
{
    state.commit_trigger = true;
}

/// Disarms everything.
pub fn disable_injection(state: &mut FailureState)
    ensures
        *final(state) == disarmed(),
{
    state.statement_enabled = false;
    state.statement_counter = u64::MAX;
    state.commit_trigger = false;
}

/// Runs `f` with a failure of the `fail_after`-th statement armed, and disarms
/// everything afterwards.
pub fn with_statement_failure_after<F, T>(state: &mut FailureState, fail_after: u64, f: F) -> (r: T)
    where F: FnOnce(&mut FailureState) -> T
    requires
        forall|s: &mut FailureState| #![trigger call_requires(f, (s,))]
            *s == (FailureState {
                statement_counter: fail_after,
                statement_enabled: true,
                ..*old(state)
            }) ==> call_requires(f, (s,)),
    ensures
        *final(state) == disarmed(),
        exists|s: &mut FailureState| #![trigger call_ensures(f, (s,), r)]
            *s == (FailureState {
                statement_counter: fail_after,
                statement_enabled: true,
                ..*old(state)
            }) && call_ensures(f, (s,), r),
{
    enable_statement_failure_after(state, fail_after);
    let result: T = f(state);
    disable_injection(state);
    result
}

/// Runs `f` with a failure of the next commit armed, and disarms everything
/// afterwards.
pub fn with_commit_failure<F, T>(state: &mut FailureState, f: F) -> (r: T)
    where F: FnOnce(&mut FailureState) -> T
    requires
        forall|s: &mut FailureState| #![trigger call_requires(f, (s,))]
            *s == (FailureState { commit_trigger: true, ..*old(state) }) ==> call_requires(
                f,
                (s,),
            ),
    ensures
        *final(state) == disarmed(),
        exists|s: &mut FailureState| #![trigger call_ensures(f, (s,), r)]
            *s == (FailureState { commit_trigger: true, ..*old(state) }) && call_ensures(
                f,
                (s,),
                r,
            ),
{
    enable_commit_failure_once(state);
    let result: T = f(state);
    disable_injection(state);
    result
}

} // verus!
