//! The reference-counted strings of the `arcstr` crate.

use arcstr::ArcStr;
use vstd::prelude::*;

verus! {

/// The shared string of the `arcstr` crate, taken as opaque.
#[verifier::external_type_specification]
#[verifier::external_body]
pub struct ExArcStr(arcstr::ArcStr);

/// The characters that an `ArcStr` holds.
pub uninterp spec fn arcstr_text(s: ArcStr) -> Seq<char>;

/// Calls `<ArcStr as From<&str>>::from`: a shared copy of the string.
#[verifier::external_body]
pub(crate) fn arcstr_from(s: &str) -> (r: ArcStr)
    ensures
        arcstr_text(r) == s@,
{
    ArcStr::from(s)
}

/// `ArcStr::as_str`: the string held.
pub assume_specification [arcstr::ArcStr::as_str] (s: &arcstr::ArcStr) -> (r: &str)
    ensures
        r@ == arcstr_text(*s),
;

/// `<ArcStr as Clone>::clone`: the clone shares the memory, so it holds the same
/// string.
pub assume_specification [<arcstr::ArcStr as Clone>::clone] (s: &arcstr::ArcStr) -> (r: arcstr::ArcStr)
    ensures
        arcstr_text(r) == arcstr_text(*s),
;

} // verus!
