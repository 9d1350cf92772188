//! Completion of truncated JSON text, and detection of text that is corrupt rather than
//! merely truncated.
pub mod automaton;
pub mod complete_json;
pub mod completion;
pub mod context;
pub mod grammar;
pub mod laws;
pub mod prefixes;
pub mod scanner;

pub use completion::{CompletionMode, complete_with_mode, untruncate_json};
pub use scanner::{MalformedJsonError, get_closing_string_for_partial_json};

use vstd::prelude::*;
use completion::completion;
use scanner::is_malformed;

verus! {

/// Completes a truncated JSON text: fails if the text is malformed, and otherwise returns
/// it, rolled back past a trailing ambiguous escape sequence or collection item, followed
/// by the text that closes every context still open.
pub fn complete_json(input: &str) -> (r: Result<String, MalformedJsonError>)
    ensures
        is_malformed(input@) <==> r is Err,
        r matches Ok(t) ==> t@ == completion(input@, CompletionMode::RollbackAware),
{
    match get_closing_string_for_partial_json(input) {
        Err(e) => Err(e),
        Ok(_) => Ok(untruncate_json(input)),
    }
}

} // verus!
