//! Completing a truncated text: run the automaton, roll back to the last unambiguous point
//! if one is pending, then close every open context.
use vstd::prelude::*;
use crate::automaton::{Mark, ParseModel, ParseState, RespawnPoint, mark_of, model_wf, run};
use crate::context::{Context, closing, push_closer};

verus! {

/// Whether a pending rollback point is honoured at the end of the text.
#[derive(Clone, Copy, Debug, PartialEq, Eq, Structural)]
pub enum CompletionMode {
    /// Roll back a trailing escape sequence or collection item that cannot be completed
    /// without guessing its content.
    RollbackAware,
    /// Close whatever is open, even in the middle of an escape sequence; the result need
    /// not be valid JSON.
    BracketOnly,
}

/// The earlier of the pending rollback points, if any is pending.
pub open spec fn rollback_point(m: ParseModel) -> Option<Mark> {
    match (m.escape, m.item) {
        (Some(e), Some(t)) => if t.offset <= e.offset {
            Some(t)
        } else {
            Some(e)
        },
        (Some(e), None) => Some(e),
        (None, Some(t)) => Some(t),
        (None, None) => None,
    }
}

/// The levels of `stack` up to `depth`.
pub open spec fn keep(stack: Seq<Context>, depth: nat) -> Seq<Context> {
    if depth < stack.len() {
        stack.take(depth as int)
    } else {
        stack
    }
}

/// What is left of the text after the rollback, if any, and the stack that is then closed.
pub open spec fn kept(s: Seq<char>, mode: CompletionMode) -> (Seq<char>, Seq<Context>) {
    let m = run(s);
    match rollback_point(m) {
        Some(p) if mode == CompletionMode::RollbackAware => (
            s.take(p.offset as int),
            keep(m.stack, p.depth),
        ),
        _ => (s, m.stack),
    }
}

/// The completed text: what is kept of `s`, followed by the closing text of its stack.
pub open spec fn completion(s: Seq<char>, mode: CompletionMode) -> Seq<char> {
    kept(s, mode).0 + closing(kept(s, mode).1)
}

/// The suffix that completes `s` once the rollback, if any, has been applied.
pub open spec fn suffix(s: Seq<char>, mode: CompletionMode) -> Seq<char> {
    closing(kept(s, mode).1)
}

proof fn lemma_run_extend(s: Seq<char>, i: int)
    requires
        0 <= i < s.len(),
    ensures
        run(s.take(i + 1)) == crate::automaton::step(run(s.take(i)), s[i], i as nat),
{
    assert(s.take(i + 1).drop_last() =~= s.take(i));
}

proof fn lemma_closing_take(stack: Seq<Context>, j: int)
    requires
        0 < j <= stack.len(),
    ensures
        closing(stack.take(j)) == crate::context::closer(stack[j - 1]) + closing(stack.take(j - 1)),
{
    assert(stack.take(j).drop_last() =~= stack.take(j - 1));
}

/// Runs the automaton over all of `json`.
pub fn scan_contexts(json: &str) -> (r: ParseState)
    ensures
        r@ == run(json@),
        model_wf(r@, json@.len()),
{
    let n = json.unicode_len();
    let mut st = ParseState::new();
    let mut i: usize = 0;
    assert(json@.take(0) =~= Seq::<char>::empty());
    for c in it: json.chars()
        invariant
            i == it.index(),
            it.seq() == json@,
            n == json@.len(),
            st@ == run(json@.take(i as int)),
            model_wf(st@, i as nat),
    {
        proof {
            lemma_run_extend(json@, i as int);
        }
        st.step(c, i);
        i = i + 1;
    }
    assert(json@.take(n as int) =~= json@);
    st
}

/// The earlier of two pending rollback points.
fn earlier(escape: Option<RespawnPoint>, item: Option<RespawnPoint>) -> (r: Option<RespawnPoint>)
    ensures
        mark_of(r) == rollback_point(ParseModel { stack: Seq::empty(), escape: mark_of(escape), item: mark_of(item) }),
{
    match (escape, item) {
        (Some(e), Some(t)) => if t.offset <= e.offset {
            Some(t)
        } else {
            Some(e)
        },
        (Some(e), None) => Some(e),
        (None, Some(t)) => Some(t),
        (None, None) => None,
    }
}

/// Completes `json` into the text followed by the closing of every context left open,
/// after rolling back a pending ambiguous tail when `mode` asks for it.
pub fn complete_with_mode(json: &str, mode: CompletionMode) -> (r: String)
    ensures
        r@ == completion(json@, mode),
{
    let st = scan_contexts(json);
    let len = st.stack.len();
    let point = match mode {
        CompletionMode::RollbackAware => earlier(st.escape, st.item),
        CompletionMode::BracketOnly => None,
    };
    let (cut, depth) = match point {
        Some(p) => (p.offset, if p.depth < len {
            p.depth
        } else {
            len
        }),
        None => (json.unicode_len(), len),
    };
    let ghost k = kept(json@, mode);
    assert(k.0 =~= json@.take(cut as int));
    assert(k.1 =~= st.stack@.take(depth as int));
    let mut out = String::from_str(json.substring_char(0, cut));
    let mut j = depth;
    while j > 0
        invariant
            j <= depth <= st.stack@.len(),
            out@ + closing(st.stack@.take(j as int)) == k.0 + closing(k.1),
        decreases j,
    {
        proof {
            lemma_closing_take(st.stack@, j as int);
        }
        let ghost before = out@;
        push_closer(&mut out, st.stack[j - 1]);
        j = j - 1;
        assert(out@ + closing(st.stack@.take(j as int)) =~= before + closing(st.stack@.take(j as int + 1)));
    }
    assert(st.stack@.take(0) =~= Seq::<Context>::empty());
    assert(out@ =~= completion(json@, mode));
    out
}

/// Completes a truncated JSON text into valid JSON. A trailing escape sequence or
/// collection item that cannot be completed without guessing is dropped; a truncated
/// number or literal is padded.
pub fn untruncate_json(json: &str) -> (r: String)
    ensures
        r@ == completion(json@, CompletionMode::RollbackAware),
{
    complete_with_mode(json, CompletionMode::RollbackAware)
}

} // verus!
