//! Syntactic validation of Matrix user identifiers.  The grammar is the
//! platform's; the library relies on ruma's parser for it and names its
//! verdict `mxid_ok`.

use vstd::prelude::*;

verus! {

/// Whether a string is a syntactically valid Matrix user identifier.  The
/// verdict is a function of the characters alone; it is given meaning by
/// [`mxid_is_valid`], which asks ruma's parser.
pub uninterp spec fn mxid_ok(s: Seq<char>) -> bool;

/// Relies on ruma's `UserId::parse`: it accepts exactly the syntactically
/// valid Matrix user identifiers, deciding on the characters alone.
#[verifier::external_body]
pub fn mxid_is_valid(s: &str) -> (r: bool)
    ensures
        r == mxid_ok(s@),
{
    ruma::UserId::parse(s).is_ok()
}

} // verus!
