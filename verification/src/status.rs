//! HTTP status codes, as the `reqwest` client reports them.

use vstd::prelude::*;

verus! {

/// How `reqwest::StatusCode` prints a code: the number and its reason phrase.
pub uninterp spec fn status_text(code: u16) -> Seq<char>;

/// The codes that a `reqwest::StatusCode` can hold.
pub open spec fn is_status(code: u16) -> bool {
    100 <= code < 1000
}

/// Calls `reqwest::StatusCode::is_success`: true of the codes from 200 to 299
/// and of no other.
#[verifier::external_body]
pub(crate) fn is_success(code: u16) -> (success: bool)
    requires
        is_status(code),
    ensures
        success == (200 <= code < 300),
{
    match reqwest::StatusCode::from_u16(code) {
        Ok(status) => status.is_success(),
        Err(_) => false,
    }
}

/// Prints a `reqwest::StatusCode` through its `Display`.
///
/// Claimed of it: the text depends on the code alone. The table of reason
/// phrases is left unsaid.
#[verifier::external_body]
pub(crate) fn print_status(code: u16) -> (text: String)
    requires
        is_status(code),
    ensures
        text@ == status_text(code),
{
    match reqwest::StatusCode::from_u16(code) {
        Ok(status) => status.to_string(),
        Err(e) => e.to_string(),
    }
}

} // verus!
