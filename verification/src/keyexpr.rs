//! Key expression validity and intersection, as the zenoh key expression
//! library decides them.

use vstd::prelude::*;
use zenoh_keyexpr::keyexpr;

verus! {

/// Whether `s` is a valid (canonical) key expression, as
/// `zenoh_keyexpr::keyexpr::new` decides it.
pub uninterp spec fn is_keyexpr(s: Seq<char>) -> bool;

/// Whether the key expressions `a` and `b` intersect, as
/// `zenoh_keyexpr::keyexpr::intersects` decides it.
pub uninterp spec fn keyexprs_intersect(a: Seq<char>, b: Seq<char>) -> bool;

/// Calls `keyexpr::new` on `s`; claims only that the answer is the name
/// `is_keyexpr` applied to `s`.
#[verifier::external_body]
pub(crate) fn check_keyexpr(s: &str) -> (r: bool)
    ensures
        r == is_keyexpr(s@),
{
    keyexpr::new(s).is_ok()
}

/// Calls `keyexpr::intersects` on `a` and `b`, both turned into key
/// expressions by `keyexpr::new`, which succeeds on them by `requires`;
/// claims only that the answer is the name `keyexprs_intersect` applied to
/// `a` and `b`.
#[verifier::external_body]
pub(crate) fn intersects(a: &str, b: &str) -> (r: bool)
    requires
        is_keyexpr(a@),
        is_keyexpr(b@),
    ensures
        r == keyexprs_intersect(a@, b@),
{
    match (keyexpr::new(a), keyexpr::new(b)) {
        (Ok(a), Ok(b)) => a.intersects(b),
        _ => false,
    }
}

} // verus!
