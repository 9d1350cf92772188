//! The bracket-only completer: the same automaton without the rollback step.
use vstd::prelude::*;
use crate::completion::{CompletionMode, complete_with_mode, completion};

verus! {

/// Closes every context that is open at the end of `json`, even inside an escape
/// sequence, without rolling anything back. Faster to reason about but lossy: a text that
/// ends inside an escape sequence is not completed into valid JSON.
pub fn complete_json(json: &str) -> (r: String)
    ensures
        r@ == completion(json@, CompletionMode::BracketOnly),
{
    complete_with_mode(json, CompletionMode::BracketOnly)
}

} // verus!
