//! The same questions where fault injection is switched off: nothing can be
//! armed, and nothing ever fails.

use vstd::prelude::*;

use crate::testing::statement_failure::InjectedFailure;

verus! {

/// Never fails.
pub fn maybe_fail_statement() -> (r: Result<(), InjectedFailure>)
    ensures
        r == Ok::<(), InjectedFailure>(()),
{
    Ok(())
}

/// Never fails.
pub fn maybe_fail_commit() -> (r: Result<(), InjectedFailure>)
    ensures
        r == Ok::<(), InjectedFailure>(()),
{
    Ok(())
}

/// Arms nothing.
pub fn enable_statement_failure_after(_count: u64) {
}

/// Arms nothing.
pub fn enable_commit_failure_once() {
}

/// Has nothing to disarm.
pub fn disable_injection() {
}

} // verus!
