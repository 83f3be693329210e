//! Fresh identifiers for new rows.

use vstd::prelude::*;

verus! {

/// `ulid::Ulid::new`, written out with `Ulid::to_string`: 26 characters that
/// encode the time and a random number. Nothing else is known of them;
/// whether an identifier is new to a table is for the caller to test.
#[verifier::external_body]
pub(crate) fn new_id() -> (id: String)
    ensures
        id@.len() == 26,
{
    ulid::Ulid::new().to_string()
}

} // verus!
