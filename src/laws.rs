//! Properties of the completion that relate the completion of a text to that of a shorter
//! or longer one.
use vstd::prelude::*;
use crate::automaton::{ParseModel, Mark, initial_model, is_hex, run, top};
use crate::completion::{CompletionMode, completion, rollback_point};
use crate::context::{Context, Literal, closer, closing, rest_of_word, word};
use crate::grammar::{
    Json, after_value, all_ws, awaits_value, json_wf, lemma_literal_run, lemma_run_push,
    lemma_token_closes_silently, lemma_trailing_end, lemma_value_run, lemma_value_scan, lemma_ws_scan, text, token_of,
};
use crate::prefixes::lemma_closing_push;
use crate::scanner::{ScanModel, is_malformed, lemma_malformed_prefix};

verus! {

proof fn lemma_closing_replace_top(stack: Seq<Context>, ctx: Context)
    requires
        stack.len() >= 1,
        closer(ctx) == closer(stack.last()),
    ensures
        closing(stack.update(stack.len() - 1, ctx)) == closing(stack),
{
    assert(stack.update(stack.len() - 1, ctx).drop_last() =~= stack.drop_last());
}

proof fn lemma_unicode_digits(head: Seq<char>, hex: Seq<char>, stack: Seq<Context>, mark: Mark, j: int)
    requires
        0 <= j <= hex.len() < 4,
        forall|k: int| 0 <= k < hex.len() ==> is_hex(#[trigger] hex[k]),
        run(head) == (ParseModel {
            stack: stack.push(Context::InStringUnicodeEscape { digits: 0 }),
            escape: Some(mark),
            item: None,
        }),
    ensures
        run(head + hex.take(j)) == (ParseModel {
            stack: stack.push(Context::InStringUnicodeEscape { digits: j as u8 }),
            escape: Some(mark),
            item: None,
        }),
    decreases j,
{
    if j == 0 {
        assert(head + hex.take(0) =~= head);
    } else {
        lemma_unicode_digits(head, hex, stack, mark, j - 1);
        assert((head + hex.take(j - 1)).push(hex[j - 1]) =~= head + hex.take(j));
        lemma_run_push(head + hex.take(j - 1), hex[j - 1]);
        assert(is_hex(hex[j - 1]));
        assert(run(head + hex.take(j)).stack =~= stack.push(
            Context::InStringUnicodeEscape { digits: j as u8 },
        ));
    }
}

/// A text that ends inside a unicode escape of a string, with nothing ambiguous before the
/// escape, completes exactly as the text that ends just before the backslash: no hex digit
/// is guessed.
pub proof fn law_partial_unicode_escape_rolls_back(p: Seq<char>, hex: Seq<char>)
    requires
        top(run(p)) == Context::InString,
        rollback_point(run(p)) is None,
        hex.len() < 4,
        forall|k: int| 0 <= k < hex.len() ==> is_hex(#[trigger] hex[k]),
    ensures
        completion(p + seq!['\\', 'u'] + hex, CompletionMode::RollbackAware)
            == completion(p, CompletionMode::RollbackAware),
        completion(p, CompletionMode::RollbackAware) == p + closing(run(p).stack),
{
    let m = run(p);
    let head = p + seq!['\\', 'u'];
    let mark = Mark { offset: p.len(), depth: m.stack.len() };
    lemma_run_push(p, '\\');
    assert(p.push('\\').push('u') =~= head);
    lemma_run_push(p.push('\\'), 'u');
    assert(run(head).stack =~= m.stack.push(Context::InStringUnicodeEscape { digits: 0 }));
    lemma_unicode_digits(head, hex, m.stack, mark, hex.len() as int);
    assert(hex.take(hex.len() as int) =~= hex);
    let s = head + hex;
    assert(s.take(p.len() as int) =~= p);
    assert(m.stack.push(Context::InStringUnicodeEscape { digits: hex.len() as u8 }).take(
        m.stack.len() as int,
    ) =~= m.stack);
}

/// A text that ends with the first letters of a literal where a value was awaited
/// completes with the rest of the literal's letters, without rolling back.
pub proof fn law_partial_literal_is_finished(p: Seq<char>, kind: Literal, j: int)
    requires
        awaits_value(top(run(p))),
        run(p).escape is None,
        top(run(p)) == Context::TopLevel ==> run(p).item is None,
        1 <= j <= word(kind).len(),
    ensures
        completion(p + word(kind).take(j), CompletionMode::RollbackAware) == p + word(kind)
            + closing(run(p).stack),
{
    let m = run(p);
    let w = word(kind);
    let a = after_value(m);
    lemma_literal_run(p, kind, j);
    if top(m) != Context::TopLevel {
        lemma_closing_replace_top(m.stack, a.stack.last());
        assert(a.stack =~= m.stack.update(m.stack.len() - 1, a.stack.last()));
    }
    lemma_closing_push(a.stack, Context::InLiteral { kind, matched: j as u8 });
    assert(w.take(j) + rest_of_word(kind, j as u8) =~= w);
    assert(p + w.take(j) + (rest_of_word(kind, j as u8) + closing(m.stack)) =~= p + w + closing(
        m.stack,
    ));
}

/// A complete JSON text, one value with whitespace around it, is not malformed and is its
/// own completion: nothing is rolled back and nothing is appended.
pub proof fn law_complete_text_unchanged(lead: Seq<char>, v: Json, trail: Seq<char>)
    requires
        all_ws(lead),
        json_wf(v),
        all_ws(trail),
    ensures
        !is_malformed(lead + text(v) + trail),
        completion(lead + text(v) + trail, CompletionMode::RollbackAware) == lead + text(v)
            + trail,
{
    let s = lead + text(v) + trail;
    let e = Seq::<char>::empty();
    let init = initial_model();
    assert(e + lead =~= lead);
    assert(run(e) == init);
    crate::grammar::lemma_ws_run_from(e, lead);
    assert(after_value(init).stack =~= init.stack);
    lemma_value_run(lead, v);
    lemma_trailing_end(lead + text(v), init, v, trail);
    let top_only = seq![Context::TopLevel];
    assert(closing(top_only) =~= closer(Context::TopLevel) + closing(top_only.drop_last()));
    lemma_token_closes_silently(v);
    if trail.len() == 0 {
        if let Some(t) = token_of(v) {
            lemma_closing_push(top_only, t);
        }
    }
    assert(closing(run(s).stack) =~= e);
    assert(s + e =~= s);
    let sm = ScanModel { closers: Seq::empty(), in_string: false, escaped: false };
    lemma_ws_scan(e, lead, sm);
    lemma_value_scan(lead, v, sm);
    lemma_ws_scan(lead + text(v), trail, sm);
}

/// No prefix of a JSON text is malformed, so the completion of every prefix succeeds.
pub proof fn law_prefix_is_not_malformed(lead: Seq<char>, v: Json, trail: Seq<char>, i: int)
    requires
        all_ws(lead),
        json_wf(v),
        all_ws(trail),
        0 <= i <= (lead + text(v) + trail).len(),
    ensures
        !is_malformed((lead + text(v) + trail).take(i)),
{
    law_complete_text_unchanged(lead, v, trail);
    if is_malformed((lead + text(v) + trail).take(i)) {
        lemma_malformed_prefix(lead + text(v) + trail, i);
    }
}

/// Every prefix of a JSON text that reaches into its value completes to a JSON text: the
/// same leading whitespace, a well-formed value and whitespace after it. (A prefix of
/// whitespace alone completes to itself, which holds no value.)
pub proof fn law_prefix_completes_to_json(lead: Seq<char>, v: Json, trail: Seq<char>, i: int) -> (r: (Json, Seq<char>))
    requires
        all_ws(lead),
        json_wf(v),
        all_ws(trail),
        lead.len() < i <= (lead + text(v) + trail).len(),
    ensures
        !is_malformed((lead + text(v) + trail).take(i)),
        json_wf(r.0),
        all_ws(r.1),
        completion((lead + text(v) + trail).take(i), CompletionMode::RollbackAware) == lead + text(r.0)
            + r.1,
{
    let s = lead + text(v) + trail;
    let e = Seq::<char>::empty();
    let init = initial_model();
    law_prefix_is_not_malformed(lead, v, trail, i);
    assert(e + lead =~= lead);
    assert(run(e) == init);
    crate::grammar::lemma_ws_run_from(e, lead);
    assert(after_value(init).stack =~= init.stack);
    let top_only = seq![Context::TopLevel];
    assert(closing(top_only) =~= closer(Context::TopLevel) + closing(top_only.drop_last()));
    let lt = lead.len() + text(v).len();
    if i <= lt {
        let w = crate::prefixes::lemma_cut_value(lead, v, i - lead.len());
        assert(s.take(i) =~= lead + text(v).take(i - lead.len()));
        assert(lead + text(w) + closing(top_only) =~= lead + text(w) + e);
        (w, e)
    } else {
        let tj = trail.take(i - lt);
        assert(all_ws(tj));
        lemma_value_run(lead, v);
        lemma_trailing_end(lead + text(v), init, v, tj);
        assert(s.take(i) =~= lead + text(v) + tj);
        crate::prefixes::lemma_completion_unmarked(s.take(i));
        assert(s.take(i) + closing(top_only) =~= lead + text(v) + tj);
        (v, tj)
    }
}

} // verus!
