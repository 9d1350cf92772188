//! The completion of every prefix of a JSON text is a JSON text.
use vstd::prelude::*;
use crate::automaton::{Mark, ParseModel, push_ctx, run, step, top};
use crate::completion::{CompletionMode, completion, keep, rollback_point};
use crate::context::{Context, closer, closing, rest_of_word, word};
use crate::grammar::{
    Elems, Json, Members, after_value, all_digits, all_ws, awaits_value, elems_text, elems_wf,
    is_string_body, json_wf, lemma_digits_from, lemma_digits_stay, lemma_literal_run,
    lemma_number_char, lemma_plain_char_run, lemma_run_push, lemma_simple_escape_run, lemma_start,
    lemma_token_closes_silently, lemma_trailing, lemma_trailing_end, lemma_unicode_escape_run,
    lemma_value_run, lemma_ws_run_from, members_text, members_wf, number_text, text,
    is_plain_string_char, is_simple_escape, lemma_unicode_digit_run, lemma_unicode_start_run,
};

verus! {

/// Cut inside an escape sequence that begins a string body, a text rolls back to before
/// the backslash.
pub proof fn lemma_cut_escape(p: Seq<char>, body: Seq<char>, j: int)
    requires
        top(run(p)) == Context::InString,
        run(p).escape is None,
        is_string_body(body),
        body.len() > 0,
        !is_plain_string_char(body[0]),
        0 < j < body.len(),
        is_simple_escape(body[1]) ==> j < 2,
        !is_simple_escape(body[1]) ==> j < 6,
    ensures
        run(p + body.take(j)).stack.len() == run(p).stack.len() + 1,
        run(p + body.take(j)).stack.drop_last() == run(p).stack,
        run(p + body.take(j)).escape == Some(Mark { offset: p.len(), depth: run(p).stack.len() }),
        run(p + body.take(j)).item == run(p).item,
        run(p).item is None ==> completion(p + body.take(j), CompletionMode::RollbackAware) == p
            + closing(run(p).stack),
{
    let m = run(p);
    let t = p + body.take(j);
    let mark = Mark { offset: p.len(), depth: m.stack.len() };
    lemma_run_push(p, '\\');
    assert(p.push('\\') =~= p + body.take(1));
    let top_ctx = if j == 1 {
        Context::InStringEscape
    } else {
        Context::InStringUnicodeEscape { digits: (j - 2) as u8 }
    };
    if j >= 2 {
        let m1 = ParseModel { escape: Some(mark), ..m };
        let p2 = p.push('\\').push('u');
        lemma_unicode_start_run(p);
        assert(p2 =~= p + body.take(2));
        if j >= 3 {
            lemma_unicode_digit_run(p2, body[2], m1, 0);
            assert(p2.push(body[2]) =~= p + body.take(3));
        }
        if j >= 4 {
            lemma_unicode_digit_run(p + body.take(3), body[3], m1, 1);
            assert((p + body.take(3)).push(body[3]) =~= p + body.take(4));
        }
        if j >= 5 {
            lemma_unicode_digit_run(p + body.take(4), body[4], m1, 2);
            assert((p + body.take(4)).push(body[4]) =~= p + body.take(5));
        }
    }
    assert(run(t) == (ParseModel { stack: m.stack.push(top_ctx), escape: Some(mark), item: m.item }));
    assert(m.stack.push(top_ctx).drop_last() =~= m.stack);
    assert(t.take(p.len() as int) =~= p);
    assert(m.stack.push(top_ctx).take(m.stack.len() as int) =~= m.stack);
}

/// Inside a string, every cut of a string body completes to the longest whole part of the
/// body before the cut, closed as the stack requires.
pub proof fn lemma_cut_string_body(p: Seq<char>, body: Seq<char>, j: int) -> (j0: int)
    requires
        top(run(p)) == Context::InString,
        run(p).escape is None,
        run(p).item is None,
        is_string_body(body),
        0 <= j <= body.len(),
    ensures
        0 <= j0 <= j,
        is_string_body(body.take(j0)),
        completion(p + body.take(j), CompletionMode::RollbackAware) == p + body.take(j0)
            + closing(run(p).stack),
    decreases body.len(),
{
    let m = run(p);
    if j == 0 {
        assert(p + body.take(0) =~= p);
        assert(body.take(0) =~= Seq::<char>::empty());
        0
    } else {
        let e: int = if is_plain_string_char(body[0]) {
            1
        } else if is_simple_escape(body[1]) {
            2
        } else {
            6
        };
        if j < e {
            lemma_cut_escape(p, body, j);
            assert(body.take(0) =~= Seq::<char>::empty());
            assert(p + body.take(0) =~= p);
            0
        } else {
            let p2 = p + body.take(e);
            if e == 1 {
                lemma_plain_char_run(p, body[0]);
                assert(p.push(body[0]) =~= p2);
            } else if e == 2 {
                lemma_simple_escape_run(p, body[1]);
                assert(p.push('\\').push(body[1]) =~= p2);
            } else {
                lemma_unicode_escape_run(p, body);
            }
            let rest = body.subrange(e, body.len() as int);
            let j1 = lemma_cut_string_body(p2, rest, j - e);
            assert(p2 + rest.take(j - e) =~= p + body.take(j));
            assert(p2 + rest.take(j1) =~= p + body.take(e + j1));
            let b = body.take(e + j1);
            assert(b.subrange(e, b.len() as int) =~= rest.take(j1));
            if e == 1 {
                assert(b.drop_first() =~= rest.take(j1));
            }
            assert(is_string_body(b));
            e + j1
        }
    }
}

/// With nothing pending, the completion closes the stack and keeps the whole text.
pub proof fn lemma_completion_unmarked(t: Seq<char>)
    requires
        run(t).escape is None,
        run(t).item is None,
    ensures
        completion(t, CompletionMode::RollbackAware) == t + closing(run(t).stack),
{
}

pub proof fn lemma_closing_push(stack: Seq<Context>, ctx: Context)
    ensures
        closing(stack.push(ctx)) == closer(ctx) + closing(stack),
{
    assert(stack.push(ctx).drop_last() =~= stack);
}

proof fn lemma_zero_digit()
    ensures
        all_digits(seq!['0']),
{
    assert forall|k: int| 0 <= k < 1 implies crate::automaton::is_digit(#[trigger] seq!['0'][k]) by {
        assert(seq!['0'][k] == '0');
    }
}

/// The completion of a text that leaves one context open on top of `a`, with nothing pending.
proof fn lemma_finish(p: Seq<char>, t: Seq<char>, a: ParseModel, ctx: Context, body: Seq<char>)
    requires
        run(t) == push_ctx(a, ctx),
        a.escape is None,
        a.item is None,
        t + closer(ctx) == p + body,
    ensures
        completion(t, CompletionMode::RollbackAware) == p + body + closing(a.stack),
{
    lemma_completion_unmarked(t);
    lemma_closing_push(a.stack, ctx);
    assert(t + (closer(ctx) + closing(a.stack)) =~= t + closer(ctx) + closing(a.stack));
    assert(p + body + closing(a.stack) =~= (p + body) + closing(a.stack));
}

pub open spec fn sign_text(minus: bool) -> Seq<char> {
    if minus {
        seq!['-']
    } else {
        Seq::empty()
    }
}

pub open spec fn frac_text(frac: Seq<char>) -> Seq<char> {
    if frac.len() > 0 {
        seq!['.'] + frac
    } else {
        Seq::empty()
    }
}

pub open spec fn exp_text(mark: Seq<char>, exp: Seq<char>) -> Seq<char> {
    if exp.len() > 0 {
        mark + exp
    } else {
        Seq::empty()
    }
}

proof fn lemma_number_parts(minus: bool, whole: Seq<char>, frac: Seq<char>, mark: Seq<char>, exp: Seq<char>)
    ensures
        number_text(minus, whole, frac, mark, exp) == sign_text(minus) + whole + frac_text(frac)
            + exp_text(mark, exp),
        text(Json::Num { minus, whole, frac, mark, exp }) == number_text(minus, whole, frac, mark, exp),
{
}

/// A cut within the sign and the integer digits of a number.
proof fn lemma_cut_whole(p: Seq<char>, minus: bool, whole: Seq<char>, k: int) -> (w: Json)
    requires
        awaits_value(top(run(p))),
        run(p).escape is None,
        top(run(p)) == Context::TopLevel ==> run(p).item is None,
        json_wf(Json::Num { minus, whole, frac: Seq::empty(), mark: Seq::empty(), exp: Seq::empty() }),
        1 <= k <= (sign_text(minus) + whole).len(),
    ensures
        json_wf(w),
        completion(p + (sign_text(minus) + whole).take(k), CompletionMode::RollbackAware) == p
            + text(w) + closing(after_value(run(p)).stack),
{
    let a = after_value(run(p));
    let sign = sign_text(minus);
    let e = Seq::<char>::empty();
    let zero = seq!['0'];
    let t = p + (sign + whole).take(k);
    let ls = sign.len() as int;
    lemma_zero_digit();
    if minus {
        assert(p + sign =~= p.push('-'));
        lemma_start(p, '-', Context::NumberNeedsDigit);
    }
    if minus && k == 1 {
        assert(t =~= p + sign);
        let w = Json::Num { minus, whole: zero, frac: e, mark: e, exp: e };
        lemma_number_parts(minus, zero, e, e, e);
        assert(t + closer(Context::NumberNeedsDigit) =~= p + text(w));
        lemma_finish(p, t, a, Context::NumberNeedsDigit, text(w));
        return w;
    }
    let wj = whole.take(k - ls);
    assert(all_digits(wj));
    if minus {
        lemma_digits_from(p + sign, a, Context::NumberNeedsDigit, wj);
    } else {
        assert(p + sign =~= p);
        lemma_start(p, whole[0], Context::InNumber);
        assert(p.push(whole[0]) + wj.drop_first() =~= p + wj);
        lemma_digits_stay(p.push(whole[0]), wj.drop_first());
    }
    assert(t =~= p + sign + wj);
    let w = Json::Num { minus, whole: wj, frac: e, mark: e, exp: e };
    lemma_number_parts(minus, wj, e, e, e);
    if whole[0] == '0' {
        assert(wj =~= whole);
    }
    assert(t + closer(Context::InNumber) =~= p + text(w));
    lemma_finish(p, t, a, Context::InNumber, text(w));
    w
}

/// A cut within the fraction of a number whose integer part has been read.
proof fn lemma_cut_frac(p: Seq<char>, a: ParseModel, head: Seq<char>, frac: Seq<char>, j: int) -> (fj: Seq<char>)
    requires
        run(p + head) == push_ctx(a, Context::InNumber),
        a.escape is None,
        a.item is None,
        frac.len() > 0,
        all_digits(frac),
        1 <= j <= frac.len() + 1,
    ensures
        all_digits(fj),
        fj.len() > 0,
        completion(p + head + frac_text(frac).take(j), CompletionMode::RollbackAware) == p + head
            + frac_text(fj) + closing(a.stack),
{
    let q1 = p + head;
    let t = q1 + frac_text(frac).take(j);
    lemma_zero_digit();
    assert(step(push_ctx(a, Context::InNumber), '.', q1.len()).stack =~= a.stack.push(
        Context::NumberNeedsDigit,
    ));
    lemma_number_char(q1, a, Context::InNumber, '.', Context::NumberNeedsDigit);
    if j == 1 {
        assert(t =~= q1.push('.'));
        assert(t + closer(Context::NumberNeedsDigit) =~= p + (head + frac_text(seq!['0'])));
        lemma_finish(p, t, a, Context::NumberNeedsDigit, head + frac_text(seq!['0']));
        assert(p + (head + frac_text(seq!['0'])) =~= p + head + frac_text(seq!['0']));
        return seq!['0'];
    }
    let fj = frac.take(j - 1);
    assert(all_digits(fj));
    lemma_digits_from(q1.push('.'), a, Context::NumberNeedsDigit, fj);
    assert(t =~= q1.push('.') + fj);
    assert(t + closer(Context::InNumber) =~= p + (head + frac_text(fj)));
    lemma_finish(p, t, a, Context::InNumber, head + frac_text(fj));
    assert(p + (head + frac_text(fj)) =~= p + head + frac_text(fj));
    fj
}

/// A cut within the exponent of a number whose integer part and fraction have been read.
proof fn lemma_cut_exp(p: Seq<char>, a: ParseModel, head: Seq<char>, mark: Seq<char>, exp: Seq<char>, j: int) -> (r: (Seq<char>, Seq<char>))
    requires
        run(p + head) == push_ctx(a, Context::InNumber),
        a.escape is None,
        a.item is None,
        exp.len() > 0,
        all_digits(exp),
        crate::grammar::is_exp_mark(mark),
        1 <= j <= mark.len() + exp.len(),
    ensures
        all_digits(r.1),
        r.1.len() > 0,
        crate::grammar::is_exp_mark(r.0),
        completion(p + head + exp_text(mark, exp).take(j), CompletionMode::RollbackAware) == p + head
            + exp_text(r.0, r.1) + closing(a.stack),
{
    let q2 = p + head;
    let t = q2 + exp_text(mark, exp).take(j);
    let zero = seq!['0'];
    lemma_zero_digit();
    let m0 = mark[0];
    assert(step(push_ctx(a, Context::InNumber), m0, q2.len()).stack =~= a.stack.push(
        Context::NumberNeedsExponentDigit,
    ));
    lemma_number_char(q2, a, Context::InNumber, m0, Context::NumberNeedsExponentDigit);
    let e1 = seq![m0];
    if j == 1 {
        assert(t =~= q2.push(m0));
        assert(t + closer(Context::NumberNeedsExponentDigit) =~= p + (head + exp_text(e1, zero)));
        lemma_finish(p, t, a, Context::NumberNeedsExponentDigit, head + exp_text(e1, zero));
        assert(p + (head + exp_text(e1, zero)) =~= p + head + exp_text(e1, zero));
        return (e1, zero);
    }
    let qm = q2 + mark;
    let last_ctx = if mark.len() == 2 {
        Context::NumberNeedsDigit
    } else {
        Context::NumberNeedsExponentDigit
    };
    if mark.len() == 2 {
        let sg = mark[1];
        assert(step(push_ctx(a, Context::NumberNeedsExponentDigit), sg, q2.len() + 1).stack
            =~= a.stack.push(Context::NumberNeedsDigit));
        lemma_number_char(q2.push(m0), a, Context::NumberNeedsExponentDigit, sg, Context::NumberNeedsDigit);
        assert(q2.push(m0).push(sg) =~= qm);
        if j == 2 {
            assert(t =~= qm);
            assert(t + closer(Context::NumberNeedsDigit) =~= p + (head + exp_text(mark, zero)));
            lemma_finish(p, t, a, Context::NumberNeedsDigit, head + exp_text(mark, zero));
            assert(p + (head + exp_text(mark, zero)) =~= p + head + exp_text(mark, zero));
            return (mark, zero);
        }
    } else {
        assert(q2.push(m0) =~= qm);
    }
    let ej = exp.take(j - mark.len());
    assert(all_digits(ej));
    lemma_digits_from(qm, a, last_ctx, ej);
    assert(t =~= qm + ej);
    assert(t + closer(Context::InNumber) =~= p + (head + exp_text(mark, ej)));
    lemma_finish(p, t, a, Context::InNumber, head + exp_text(mark, ej));
    assert(p + (head + exp_text(mark, ej)) =~= p + head + exp_text(mark, ej));
    (mark, ej)
}

/// A cut inside a number completes to a number.
pub proof fn lemma_cut_number(
    p: Seq<char>,
    minus: bool,
    whole: Seq<char>,
    frac: Seq<char>,
    mark: Seq<char>,
    exp: Seq<char>,
    k: int,
) -> (w: Json)
    requires
        awaits_value(top(run(p))),
        run(p).escape is None,
        top(run(p)) == Context::TopLevel ==> run(p).item is None,
        json_wf(Json::Num { minus, whole, frac, mark, exp }),
        1 <= k <= number_text(minus, whole, frac, mark, exp).len(),
    ensures
        json_wf(w),
        completion(p + number_text(minus, whole, frac, mark, exp).take(k), CompletionMode::RollbackAware)
            == p + text(w) + closing(after_value(run(p)).stack),
{
    let a = after_value(run(p));
    let e = Seq::<char>::empty();
    let nt = number_text(minus, whole, frac, mark, exp);
    lemma_number_parts(minus, whole, frac, mark, exp);
    let h1 = sign_text(minus) + whole;
    let h2 = h1 + frac_text(frac);
    if k <= h1.len() {
        assert(nt.take(k) =~= h1.take(k));
        lemma_cut_whole(p, minus, whole, k)
    } else if k <= h2.len() {
        crate::grammar::lemma_number_run(p, minus, whole, e, e, e);
        lemma_number_parts(minus, whole, e, e, e);
        assert(number_text(minus, whole, e, e, e) =~= h1);
        assert(frac.len() > 0);
        let fj = lemma_cut_frac(p, a, h1, frac, k - h1.len());
        assert(p + nt.take(k) =~= p + h1 + frac_text(frac).take(k - h1.len()));
        let w = Json::Num { minus, whole, frac: fj, mark: e, exp: e };
        lemma_number_parts(minus, whole, fj, e, e);
        assert(p + h1 + frac_text(fj) =~= p + text(w));
        w
    } else {
        crate::grammar::lemma_number_run(p, minus, whole, frac, e, e);
        lemma_number_parts(minus, whole, frac, e, e);
        assert(number_text(minus, whole, frac, e, e) =~= h2);
        assert(exp.len() > 0);
        let r = lemma_cut_exp(p, a, h2, mark, exp, k - h2.len());
        assert(p + nt.take(k) =~= p + h2 + exp_text(mark, exp).take(k - h2.len()));
        let w = Json::Num { minus, whole, frac, mark: r.0, exp: r.1 };
        lemma_number_parts(minus, whole, frac, r.0, r.1);
        assert(p + h2 + exp_text(r.0, r.1) =~= p + text(w));
        w
    }
}

/// Inside a string, a cut of a string body leaves the stack beneath the string as it was,
/// the pending item as it was, and any pending escape within the body.
proof fn lemma_string_prefix_state(p: Seq<char>, body: Seq<char>, j: int)
    requires
        top(run(p)) == Context::InString,
        run(p).escape is None,
        is_string_body(body),
        0 <= j <= body.len(),
    ensures
        run(p + body.take(j)).item == run(p).item,
        run(p + body.take(j)).stack.len() >= run(p).stack.len(),
        run(p + body.take(j)).stack.take(run(p).stack.len() as int) == run(p).stack,
        run(p + body.take(j)).escape matches Some(e) ==> e.offset >= p.len(),
    decreases body.len(),
{
    let m = run(p);
    if j == 0 {
        assert(p + body.take(0) =~= p);
        assert(m.stack.take(m.stack.len() as int) =~= m.stack);
    } else {
        let e: int = if crate::grammar::is_plain_string_char(body[0]) {
            1
        } else if crate::grammar::is_simple_escape(body[1]) {
            2
        } else {
            6
        };
        if j < e {
            lemma_cut_escape(p, body, j);
            let st = run(p + body.take(j)).stack;
            assert(st.take(m.stack.len() as int) =~= st.drop_last());
        } else {
            let p2 = p + body.take(e);
            if e == 1 {
                lemma_plain_char_run(p, body[0]);
                assert(p.push(body[0]) =~= p2);
            } else if e == 2 {
                lemma_simple_escape_run(p, body[1]);
                assert(p.push('\\').push(body[1]) =~= p2);
            } else {
                lemma_unicode_escape_run(p, body);
            }
            let rest = body.subrange(e, body.len() as int);
            lemma_string_prefix_state(p2, rest, j - e);
            assert(p2 + rest.take(j - e) =~= p + body.take(j));
        }
    }
}

/// An array's elements followed by one more element.
pub open spec fn snoc_elem(done: Elems, before: Seq<char>, value: Json, after: Seq<char>) -> Elems
    decreases done,
{
    match done {
        Elems::Nil => Elems::Cons {
            before,
            value: Box::new(value),
            after,
            rest: Box::new(Elems::Nil),
        },
        Elems::Cons { before: b, value: v, after: a, rest } => Elems::Cons {
            before: b,
            value: v,
            after: a,
            rest: Box::new(snoc_elem(*rest, before, value, after)),
        },
    }
}

/// The text of `done` and the comma after it, if it holds any element.
pub open spec fn elems_lead(done: Elems) -> Seq<char> {
    match done {
        Elems::Nil => Seq::empty(),
        Elems::Cons { .. } => elems_text(done) + seq![','],
    }
}

proof fn lemma_snoc_elem(done: Elems, before: Seq<char>, value: Json, after: Seq<char>)
    requires
        elems_wf(done),
        all_ws(before),
        json_wf(value),
        all_ws(after),
    ensures
        elems_wf(snoc_elem(done, before, value, after)),
        snoc_elem(done, before, value, after) is Cons,
        elems_text(snoc_elem(done, before, value, after)) == elems_lead(done) + before + text(value)
            + after,
    decreases done,
{
    if let Elems::Cons { before: b, value: v, after: a, rest } = done {
        lemma_snoc_elem(*rest, before, value, after);
        assert(elems_text(snoc_elem(done, before, value, after)) =~= elems_lead(done) + before
            + text(value) + after);
    }
}

/// An object's members followed by one more member.
pub open spec fn snoc_member(
    done: Members,
    before: Seq<char>,
    key: Seq<char>,
    ws1: Seq<char>,
    ws2: Seq<char>,
    value: Json,
    after: Seq<char>,
) -> Members
    decreases done,
{
    match done {
        Members::Nil => Members::Cons {
            before,
            key,
            ws1,
            ws2,
            value: Box::new(value),
            after,
            rest: Box::new(Members::Nil),
        },
        Members::Cons { before: b, key: k, ws1: w1, ws2: w2, value: v, after: a, rest } => Members::Cons {
            before: b,
            key: k,
            ws1: w1,
            ws2: w2,
            value: v,
            after: a,
            rest: Box::new(snoc_member(*rest, before, key, ws1, ws2, value, after)),
        },
    }
}

/// The text of `done` and the comma after it, if it holds any member.
pub open spec fn members_lead(done: Members) -> Seq<char> {
    match done {
        Members::Nil => Seq::empty(),
        Members::Cons { .. } => members_text(done) + seq![','],
    }
}

pub open spec fn member_text(
    before: Seq<char>,
    key: Seq<char>,
    ws1: Seq<char>,
    ws2: Seq<char>,
    value: Json,
    after: Seq<char>,
) -> Seq<char> {
    before + seq!['"'] + key + seq!['"'] + ws1 + seq![':'] + ws2 + text(value) + after
}

proof fn lemma_snoc_member(
    done: Members,
    before: Seq<char>,
    key: Seq<char>,
    ws1: Seq<char>,
    ws2: Seq<char>,
    value: Json,
    after: Seq<char>,
)
    requires
        members_wf(done),
        all_ws(before),
        is_string_body(key),
        all_ws(ws1),
        all_ws(ws2),
        json_wf(value),
        all_ws(after),
    ensures
        members_wf(snoc_member(done, before, key, ws1, ws2, value, after)),
        snoc_member(done, before, key, ws1, ws2, value, after) is Cons,
        members_text(snoc_member(done, before, key, ws1, ws2, value, after)) == members_lead(done)
            + member_text(before, key, ws1, ws2, value, after),
    decreases done,
{
    if let Members::Cons { rest, .. } = done {
        lemma_snoc_member(*rest, before, key, ws1, ws2, value, after);
        assert(members_text(snoc_member(done, before, key, ws1, ws2, value, after))
            =~= members_lead(done) + member_text(before, key, ws1, ws2, value, after));
    }
}

/// With an item pending that no escape precedes, the completion rolls back to it and
/// closes the collection that it belongs to.
proof fn lemma_rollback_item(t: Seq<char>, a: ParseModel, mk: Mark, ctx: Context)
    requires
        run(t).item == Some(mk),
        mk.depth == a.stack.len() + 1,
        mk.offset <= t.len(),
        run(t).escape matches Some(e) ==> e.offset >= mk.offset,
        run(t).stack.len() >= mk.depth,
        run(t).stack.take(a.stack.len() as int) == a.stack,
        run(t).stack[a.stack.len() as int] == ctx,
    ensures
        completion(t, CompletionMode::RollbackAware) == t.take(mk.offset as int) + closer(ctx)
            + closing(a.stack),
{
    let st = run(t).stack;
    assert(rollback_point(run(t)) == Some(mk));
    assert(keep(st, mk.depth) =~= a.stack.push(ctx));
    lemma_closing_push(a.stack, ctx);
    assert(t.take(mk.offset as int) + (closer(ctx) + closing(a.stack)) =~= t.take(
        mk.offset as int,
    ) + closer(ctx) + closing(a.stack));
}

/// The item mark that an object's next member rolls back to: the comma before it, or else
/// the quote that opens its key.
pub open spec fn member_mark(q: Seq<char>, a: ParseModel, done: Members, before: Seq<char>) -> Mark {
    if done is Cons {
        Mark { offset: (q.len() - 1) as nat, depth: a.stack.len() + 1 }
    } else {
        Mark { offset: q.len() + before.len(), depth: a.stack.len() + 1 }
    }
}

pub open spec fn elems_state(q: Seq<char>, a: ParseModel, done: Elems) -> ParseModel {
    ParseModel {
        stack: a.stack.push(Context::ArrayAwaitingValue),
        escape: None,
        item: if done is Cons {
            Some(Mark { offset: (q.len() - 1) as nat, depth: a.stack.len() + 1 })
        } else {
            None
        },
    }
}

pub open spec fn members_state(q: Seq<char>, a: ParseModel, done: Members) -> ParseModel {
    ParseModel {
        stack: a.stack.push(Context::ObjectAwaitingKey),
        escape: None,
        item: if done is Cons {
            Some(Mark { offset: (q.len() - 1) as nat, depth: a.stack.len() + 1 })
        } else {
            None
        },
    }
}

/// The whitespace before an element or member: the completion closes what came before.
proof fn lemma_cut_leading_ws(p: Seq<char>, a: ParseModel, q: Seq<char>, lead: Seq<char>, m: ParseModel, ctx: Context, before: Seq<char>, j: int)
    requires
        a.escape is None,
        a.item is None,
        q.len() >= 1,
        run(q) == m,
        m.stack == a.stack.push(ctx),
        m.escape is None,
        crate::grammar::is_structural(ctx),
        m.item is None ==> q == p + lead,
        m.item matches Some(mk) ==> mk == (Mark { offset: (q.len() - 1) as nat, depth: a.stack.len() + 1 })
            && q == p + lead + seq![','],
        all_ws(before),
        0 <= j <= before.len(),
    ensures
        completion(q + before.take(j), CompletionMode::RollbackAware) == p + (if m.item is None {
            lead + before.take(j)
        } else {
            lead
        }) + closer(ctx) + closing(a.stack),
{
    let bj = before.take(j);
    let t = q + bj;
    assert(all_ws(bj));
    lemma_ws_run_from(q, bj);
    if let Some(mk) = m.item {
        assert(run(t).stack.take(a.stack.len() as int) =~= a.stack);
        lemma_rollback_item(t, a, mk, ctx);
        assert(t.take(mk.offset as int) =~= p + lead);
    } else {
        lemma_completion_unmarked(t);
        lemma_closing_push(a.stack, ctx);
        assert(t + closing(a.stack.push(ctx)) =~= p + (lead + bj) + closer(ctx) + closing(a.stack));
    }
}

pub open spec fn key_head(before: Seq<char>, key: Seq<char>, ws1: Seq<char>, ws2: Seq<char>) -> Seq<char> {
    before + seq!['"'] + key + seq!['"'] + ws1 + seq![':'] + ws2
}

/// The states after the opening quote of a member's key, after its closing quote, and after
/// the colon: the member's item mark stays pending throughout.
#[verifier::rlimit(100)]
proof fn lemma_member_states(q: Seq<char>, a: ParseModel, done: Members, before: Seq<char>, key: Seq<char>, ws1: Seq<char>, ws2: Seq<char>)
    requires
        run(q) == members_state(q, a, done),
        done is Cons ==> q.len() >= 1,
        all_ws(before),
        is_string_body(key),
        all_ws(ws1),
        all_ws(ws2),
    ensures
        run((q + before).push('"')) == (ParseModel {
            stack: a.stack.push(Context::ObjectAwaitingColon).push(Context::InString),
            escape: None,
            item: Some(member_mark(q, a, done, before)),
        }),
        run((q + before).push('"') + key + seq!['"']) == (ParseModel {
            stack: a.stack.push(Context::ObjectAwaitingColon),
            escape: None,
            item: Some(member_mark(q, a, done, before)),
        }),
        run((q + before).push('"') + key + seq!['"'] + ws1) == (ParseModel {
            stack: a.stack.push(Context::ObjectAwaitingColon),
            escape: None,
            item: Some(member_mark(q, a, done, before)),
        }),
        run(q + key_head(before, key, ws1, ws2)) == (ParseModel {
            stack: a.stack.push(Context::ObjectAwaitingValue),
            escape: None,
            item: Some(member_mark(q, a, done, before)),
        }),
{
    let mk = member_mark(q, a, done, before);
    let q1 = q + before;
    lemma_ws_run_from(q, before);
    lemma_run_push(q1, '"');
    let s1 = a.stack.push(Context::ObjectAwaitingColon);
    assert(run(q1.push('"')).stack =~= s1.push(Context::InString));
    crate::grammar::lemma_string_body_run(q1.push('"'), key);
    lemma_run_push(q1.push('"') + key, '"');
    let q2 = q1.push('"') + key + seq!['"'];
    assert((q1.push('"') + key).push('"') =~= q2);
    assert(run(q2).stack =~= s1);
    lemma_ws_run_from(q2, ws1);
    lemma_run_push(q2 + ws1, ':');
    assert(run((q2 + ws1).push(':')).stack =~= a.stack.push(Context::ObjectAwaitingValue));
    lemma_ws_run_from((q2 + ws1).push(':'), ws2);
    assert((q2 + ws1).push(':') + ws2 =~= q + key_head(before, key, ws1, ws2));
}

/// A cut from the opening quote of a member's key to the end of the whitespace after its
/// colon rolls back to the member's mark.
#[verifier::rlimit(100)]
proof fn lemma_cut_member_head(q: Seq<char>, a: ParseModel, done: Members, before: Seq<char>, key: Seq<char>, ws1: Seq<char>, ws2: Seq<char>, j: int)
    requires
        run(q) == members_state(q, a, done),
        done is Cons ==> q.len() >= 1,
        all_ws(before),
        is_string_body(key),
        all_ws(ws1),
        all_ws(ws2),
        before.len() < j <= key_head(before, key, ws1, ws2).len(),
    ensures
        completion(q + key_head(before, key, ws1, ws2).take(j), CompletionMode::RollbackAware)
            == (q + before).take(member_mark(q, a, done, before).offset as int) + seq!['}'] + closing(
            a.stack,
        ),
{
    let mk = member_mark(q, a, done, before);
    let h = key_head(before, key, ws1, ws2);
    let t = q + h.take(j);
    let lb = before.len() as int;
    let q1 = (q + before).push('"');
    let c1 = lb + 2 + key.len();
    let c2 = c1 + ws1.len();
    lemma_member_states(q, a, done, before, key, ws1, ws2);
    if j < c1 {
        assert(q1 + key.take(j - lb - 1) =~= t);
        lemma_cut_in_key(q1, a, mk, key, j - lb - 1);
    } else if j <= c2 {
        let q2 = q1 + key + seq!['"'];
        assert(q2 + ws1.take(j - c1) =~= t);
        lemma_cut_in_ws(q2, a, mk, Context::ObjectAwaitingColon, ws1, j - c1);
    } else {
        let q3 = (q1 + key + seq!['"'] + ws1).push(':');
        lemma_run_push(q1 + key + seq!['"'] + ws1, ':');
        assert(run(q3).stack =~= a.stack.push(Context::ObjectAwaitingValue));
        assert(q3 + ws2.take(j - c2 - 1) =~= t);
        lemma_cut_in_ws(q3, a, mk, Context::ObjectAwaitingValue, ws2, j - c2 - 1);
    }
    assert(t.take(mk.offset as int) =~= (q + before).take(mk.offset as int));
}

#[verifier::rlimit(100)]
proof fn lemma_cut_in_key(q1: Seq<char>, a: ParseModel, mk: Mark, key: Seq<char>, jj: int)
    requires
        run(q1) == (ParseModel {
            stack: a.stack.push(Context::ObjectAwaitingColon).push(Context::InString),
            escape: None,
            item: Some(mk),
        }),
        mk.depth == a.stack.len() + 1,
        mk.offset < q1.len(),
        is_string_body(key),
        0 <= jj <= key.len(),
    ensures
        completion(q1 + key.take(jj), CompletionMode::RollbackAware) == (q1 + key.take(jj)).take(
            mk.offset as int,
        ) + seq!['}'] + closing(a.stack),
{
    let t = q1 + key.take(jj);
    lemma_string_prefix_state(q1, key, jj);
    let st = run(t).stack;
    let n = a.stack.len() as int;
    assert(st.take(n + 2) == a.stack.push(Context::ObjectAwaitingColon).push(Context::InString));
    assert(st.take(n) =~= st.take(n + 2).take(n));
    assert(st.take(n + 2).take(n) =~= a.stack);
    assert(st[n] == st.take(n + 2)[n]);
    lemma_rollback_item(t, a, mk, Context::ObjectAwaitingColon);
}

proof fn lemma_cut_in_ws(q2: Seq<char>, a: ParseModel, mk: Mark, ctx: Context, w: Seq<char>, jj: int)
    requires
        run(q2) == (ParseModel { stack: a.stack.push(ctx), escape: None, item: Some(mk) }),
        crate::grammar::is_structural(ctx),
        mk.depth == a.stack.len() + 1,
        mk.offset <= q2.len(),
        all_ws(w),
        0 <= jj <= w.len(),
        closer(ctx) == seq!['}'],
    ensures
        completion(q2 + w.take(jj), CompletionMode::RollbackAware) == (q2 + w.take(jj)).take(
            mk.offset as int,
        ) + seq!['}'] + closing(a.stack),
{
    let t = q2 + w.take(jj);
    assert(all_ws(w.take(jj)));
    lemma_ws_run_from(q2, w.take(jj));
    assert(run(t).stack.take(a.stack.len() as int) =~= a.stack);
    lemma_rollback_item(t, a, mk, ctx);
}

proof fn lemma_cut_whole_value(p: Seq<char>, v: Json)
    requires
        awaits_value(top(run(p))),
        run(p).escape is None,
        top(run(p)) == Context::TopLevel ==> run(p).item is None,
        json_wf(v),
    ensures
        completion(p + text(v), CompletionMode::RollbackAware) == p + text(v) + closing(
            after_value(run(p)).stack,
        ),
{
    let a = after_value(run(p));
    lemma_value_run(p, v);
    lemma_completion_unmarked(p + text(v));
    lemma_token_closes_silently(v);
    if let Some(t) = crate::grammar::token_of(v) {
        lemma_closing_push(a.stack, t);
        assert(closer(t) + closing(a.stack) =~= closing(a.stack));
    }
}

proof fn lemma_cut_str(p: Seq<char>, body: Seq<char>, k: int) -> (w: Json)
    requires
        awaits_value(top(run(p))),
        run(p).escape is None,
        top(run(p)) == Context::TopLevel ==> run(p).item is None,
        is_string_body(body),
        1 <= k <= body.len() + 1,
    ensures
        json_wf(w),
        completion(p + text(Json::Str { body }).take(k), CompletionMode::RollbackAware) == p + text(w)
            + closing(after_value(run(p)).stack),
{
    let a = after_value(run(p));
    lemma_start(p, '"', Context::InString);
    let p1 = p.push('"');
    let j0 = lemma_cut_string_body(p1, body, k - 1);
    assert(p1 + body.take(k - 1) =~= p + text(Json::Str { body }).take(k));
    lemma_closing_push(a.stack, Context::InString);
    let w = Json::Str { body: body.take(j0) };
    assert(p1 + body.take(j0) + closing(a.stack.push(Context::InString)) =~= p + text(w) + closing(
        a.stack,
    ));
    w
}

proof fn lemma_cut_lit(p: Seq<char>, kind: crate::context::Literal, k: int)
    requires
        awaits_value(top(run(p))),
        run(p).escape is None,
        top(run(p)) == Context::TopLevel ==> run(p).item is None,
        1 <= k <= word(kind).len(),
    ensures
        completion(p + word(kind).take(k), CompletionMode::RollbackAware) == p + word(kind) + closing(
            after_value(run(p)).stack,
        ),
{
    let a = after_value(run(p));
    lemma_literal_run(p, kind, k);
    let t = p + word(kind).take(k);
    assert(t + rest_of_word(kind, k as u8) =~= p + word(kind));
    lemma_finish(p, t, a, Context::InLiteral { kind, matched: k as u8 }, word(kind));
}

/// An empty collection cut after its opening bracket completes to an empty collection.
#[verifier::rlimit(100)]
proof fn lemma_cut_empty(p: Seq<char>, v: Json, k: int) -> (w: Json)
    requires
        awaits_value(top(run(p))),
        run(p).escape is None,
        top(run(p)) == Context::TopLevel ==> run(p).item is None,
        json_wf(v),
        (v matches Json::Arr { items, .. } && items is Nil) || (v matches Json::Obj { members, .. }
            && members is Nil),
        1 <= k < text(v).len(),
    ensures
        json_wf(w),
        completion(p + text(v).take(k), CompletionMode::RollbackAware) == p + text(w) + closing(
            after_value(run(p)).stack,
        ),
{
    let a = after_value(run(p));
    let is_arr = v is Arr;
    let open = if is_arr {
        '['
    } else {
        '{'
    };
    let ctx = if is_arr {
        Context::ArrayAwaitingValue
    } else {
        Context::ObjectAwaitingKey
    };
    let blank = if is_arr {
        v->Arr_blank
    } else {
        v->Obj_blank
    };
    lemma_start(p, open, ctx);
    let q = p.push(open);
    assert(q =~= p + seq![open]);
    lemma_cut_leading_ws(p, a, q, seq![open], run(q), ctx, blank, k - 1);
    assert(q + blank.take(k - 1) =~= p + text(v).take(k));
    assert(all_ws(blank.take(k - 1)));
    let w = if is_arr {
        Json::Arr { blank: blank.take(k - 1), items: Elems::Nil }
    } else {
        Json::Obj { blank: blank.take(k - 1), members: Members::Nil }
    };
    assert(p + (seq![open] + blank.take(k - 1)) + closer(ctx) =~= p + text(w));
    w
}

/// A cut inside a value completes to a value where one was awaited, and then closes the
/// contexts beneath it.
pub proof fn lemma_cut_value(p: Seq<char>, v: Json, k: int) -> (w: Json)
    requires
        awaits_value(top(run(p))),
        run(p).escape is None,
        top(run(p)) == Context::TopLevel ==> run(p).item is None,
        json_wf(v),
        1 <= k <= text(v).len(),
    ensures
        json_wf(w),
        completion(p + text(v).take(k), CompletionMode::RollbackAware) == p + text(w) + closing(
            after_value(run(p)).stack,
        ),
    decreases v,
{
    let a = after_value(run(p));
    if k == text(v).len() {
        assert(text(v).take(k) =~= text(v));
        lemma_cut_whole_value(p, v);
        return v;
    }
    match v {
        Json::Str { body } => lemma_cut_str(p, body, k),
        Json::Num { minus, whole, frac, mark, exp } => {
            lemma_cut_number(p, minus, whole, frac, mark, exp, k)
        },
        Json::Lit { kind } => {
            lemma_cut_lit(p, kind, k);
            v
        },
        Json::Arr { blank, items } => {
            if items is Nil {
                lemma_cut_empty(p, v, k)
            } else {
                lemma_start(p, '[', Context::ArrayAwaitingValue);
                let q = p.push('[');
                assert(q =~= p + seq!['['] + elems_lead(Elems::Nil));
                assert(run(q) == elems_state(q, a, Elems::Nil));
                let w = lemma_cut_elems(p, a, Elems::Nil, q, items, k - 1);
                assert(q + elems_text(items).take(k - 1) =~= p + text(v).take(k));
                w
            }
        },
        Json::Obj { blank, members } => {
            if members is Nil {
                lemma_cut_empty(p, v, k)
            } else {
                lemma_start(p, '{', Context::ObjectAwaitingKey);
                let q = p.push('{');
                assert(q =~= p + seq!['{'] + members_lead(Members::Nil));
                assert(run(q) == members_state(q, a, Members::Nil));
                let w = lemma_cut_members(p, a, Members::Nil, q, members, k - 1);
                assert(q + members_text(members).take(k - 1) =~= p + text(v).take(k));
                w
            }
        },
    }
}

#[verifier::rlimit(100)]
proof fn lemma_elems_lead_case(p: Seq<char>, a: ParseModel, done: Elems, q: Seq<char>, before: Seq<char>, j: int) -> (w: Json)
    requires
        a.escape is None,
        a.item is None,
        elems_wf(done),
        q == p + seq!['['] + elems_lead(done),
        run(q) == elems_state(q, a, done),
        all_ws(before),
        0 <= j <= before.len(),
    ensures
        json_wf(w),
        completion(q + before.take(j), CompletionMode::RollbackAware) == p + text(w) + closing(a.stack),
{
    let ctx = Context::ArrayAwaitingValue;
    let lead = seq!['['] + elems_text(done);
    if done is Cons {
        assert(q =~= p + lead + seq![',']);
    } else {
        assert(q =~= p + lead);
    }
    lemma_cut_leading_ws(p, a, q, lead, run(q), ctx, before, j);
    if done is Cons {
        let w = Json::Arr { blank: Seq::empty(), items: done };
        assert(p + lead + closer(ctx) =~= p + text(w));
        w
    } else {
        let w = Json::Arr { blank: before.take(j), items: Elems::Nil };
        assert(all_ws(before.take(j)));
        assert(p + (lead + before.take(j)) + closer(ctx) =~= p + text(w));
        w
    }
}

#[verifier::rlimit(100)]
proof fn lemma_elems_value_case(p: Seq<char>, a: ParseModel, done: Elems, q: Seq<char>, before: Seq<char>, value: Json, wv: Json, jv: int) -> (w: Json)
    requires
        elems_wf(done),
        q == p + seq!['['] + elems_lead(done),
        run(q) == elems_state(q, a, done),
        all_ws(before),
        json_wf(wv),
        completion(q + before + text(value).take(jv), CompletionMode::RollbackAware) == q + before
            + text(wv) + closing(after_value(run(q + before)).stack),
    ensures
        json_wf(w),
        completion(q + before + text(value).take(jv), CompletionMode::RollbackAware) == p + text(w)
            + closing(a.stack),
{
    lemma_ws_run_from(q, before);
    let settled_stack = a.stack.push(Context::ArrayAwaitingComma);
    lemma_closing_push(a.stack, Context::ArrayAwaitingComma);
    assert(after_value(run(q + before)).stack =~= settled_stack);
    lemma_snoc_elem(done, before, wv, Seq::empty());
    let w = Json::Arr { blank: Seq::empty(), items: snoc_elem(done, before, wv, Seq::empty()) };
    assert(q + before + text(wv) + closing(settled_stack) =~= p + text(w) + closing(a.stack));
    w
}

#[verifier::rlimit(100)]
proof fn lemma_elems_after_case(p: Seq<char>, a: ParseModel, done: Elems, q: Seq<char>, before: Seq<char>, value: Json, after: Seq<char>, ja: int) -> (w: Json)
    requires
        elems_wf(done),
        q == p + seq!['['] + elems_lead(done),
        run(q) == elems_state(q, a, done),
        all_ws(before),
        json_wf(value),
        all_ws(after),
        1 <= ja <= after.len(),
    ensures
        json_wf(w),
        completion(q + before + text(value) + after.take(ja), CompletionMode::RollbackAware) == p
            + text(w) + closing(a.stack),
{
    lemma_ws_run_from(q, before);
    let q1 = q + before;
    lemma_value_run(q1, value);
    let q2 = q1 + text(value);
    let base = after_value(run(q1));
    let settled_stack = a.stack.push(Context::ArrayAwaitingComma);
    lemma_closing_push(a.stack, Context::ArrayAwaitingComma);
    assert(base.stack =~= settled_stack);
    let aj = after.take(ja);
    assert(all_ws(aj));
    lemma_trailing_end(q2, base, value, aj);
    let t = q2 + aj;
    lemma_completion_unmarked(t);
    lemma_snoc_elem(done, before, value, aj);
    let w = Json::Arr { blank: Seq::empty(), items: snoc_elem(done, before, value, aj) };
    assert(t + closing(settled_stack) =~= p + text(w) + closing(a.stack));
    w
}

#[verifier::rlimit(100)]
proof fn lemma_elems_comma_case(p: Seq<char>, a: ParseModel, done: Elems, q: Seq<char>, before: Seq<char>, value: Json, after: Seq<char>)
    requires
        a.escape is None,
        a.item is None,
        elems_wf(done),
        q == p + seq!['['] + elems_lead(done),
        run(q) == elems_state(q, a, done),
        all_ws(before),
        json_wf(value),
        all_ws(after),
    ensures
        elems_wf(snoc_elem(done, before, value, after)),
        q + before + text(value) + after + seq![','] == p + seq!['['] + elems_lead(
            snoc_elem(done, before, value, after),
        ),
        run(q + before + text(value) + after + seq![','])
            == elems_state(
            q + before + text(value) + after + seq![','],
            a,
            snoc_elem(done, before, value, after),
        ),
{
    lemma_ws_run_from(q, before);
    let q1 = q + before;
    lemma_value_run(q1, value);
    let q2 = q1 + text(value);
    let base = after_value(run(q1));
    assert(base.stack =~= a.stack.push(Context::ArrayAwaitingComma));
    lemma_trailing(q2, base, value, after, ',');
    let q3 = q2 + after + seq![','];
    let done2 = snoc_elem(done, before, value, after);
    lemma_snoc_elem(done, before, value, after);
    assert(q3 =~= p + seq!['['] + elems_lead(done2));
    assert(run(q3).stack =~= a.stack.push(Context::ArrayAwaitingValue));
}

/// A cut inside the elements of an array, after the elements `done`, completes to an array.
#[verifier::rlimit(100)]
pub proof fn lemma_cut_elems(p: Seq<char>, a: ParseModel, done: Elems, q: Seq<char>, items: Elems, j: int) -> (w: Json)
    requires
        a.escape is None,
        a.item is None,
        elems_wf(done),
        elems_wf(items),
        items is Cons,
        q == p + seq!['['] + elems_lead(done),
        run(q) == elems_state(q, a, done),
        0 <= j <= elems_text(items).len(),
    ensures
        json_wf(w),
        completion(q + elems_text(items).take(j), CompletionMode::RollbackAware) == p + text(w)
            + closing(a.stack),
    decreases items,
{
    let before = items->before;
    let value = *items->value;
    let after = items->after;
    let rest = *items->rest;
    let lb = before.len() as int;
    let lv = text(value).len() as int;
    let la = after.len() as int;
    let et = elems_text(items);
    let tail: Seq<char> = match rest {
        Elems::Nil => Seq::empty(),
        Elems::Cons { .. } => seq![','] + elems_text(rest),
    };
    assert(et =~= before + text(value) + after + tail);
    if j <= lb {
        assert(et.take(j) =~= before.take(j));
        lemma_elems_lead_case(p, a, done, q, before, j)
    } else if j <= lb + lv {
        lemma_ws_run_from(q, before);
        let wv = lemma_cut_value(q + before, value, j - lb);
        assert(q + before + text(value).take(j - lb) =~= q + et.take(j));
        lemma_elems_value_case(p, a, done, q, before, value, wv, j - lb)
    } else if j <= lb + lv + la {
        assert(q + before + text(value) + after.take(j - lb - lv) =~= q + et.take(j));
        lemma_elems_after_case(p, a, done, q, before, value, after, j - lb - lv)
    } else {
        lemma_elems_comma_case(p, a, done, q, before, value, after);
        let q3 = q + before + text(value) + after + seq![','];
        let done2 = snoc_elem(done, before, value, after);
        let w = lemma_cut_elems(p, a, done2, q3, rest, j - lb - lv - la - 1);
        assert(q3 + elems_text(rest).take(j - lb - lv - la - 1) =~= q + et.take(j));
        w
    }
}

#[verifier::rlimit(100)]
proof fn lemma_members_lead_case(p: Seq<char>, a: ParseModel, done: Members, q: Seq<char>, before: Seq<char>, j: int) -> (w: Json)
    requires
        a.escape is None,
        a.item is None,
        members_wf(done),
        q == p + seq!['{'] + members_lead(done),
        run(q) == members_state(q, a, done),
        all_ws(before),
        0 <= j <= before.len(),
    ensures
        json_wf(w),
        completion(q + before.take(j), CompletionMode::RollbackAware) == p + text(w) + closing(a.stack),
{
    let ctx = Context::ObjectAwaitingKey;
    let lead = seq!['{'] + members_text(done);
    if done is Cons {
        assert(q =~= p + lead + seq![',']);
    } else {
        assert(q =~= p + lead);
    }
    lemma_cut_leading_ws(p, a, q, lead, run(q), ctx, before, j);
    if done is Cons {
        let w = Json::Obj { blank: Seq::empty(), members: done };
        assert(p + lead + closer(ctx) =~= p + text(w));
        w
    } else {
        let w = Json::Obj { blank: before.take(j), members: Members::Nil };
        assert(all_ws(before.take(j)));
        assert(p + (lead + before.take(j)) + closer(ctx) =~= p + text(w));
        w
    }
}

#[verifier::rlimit(100)]
proof fn lemma_members_head_case(p: Seq<char>, a: ParseModel, done: Members, q: Seq<char>, before: Seq<char>, key: Seq<char>, ws1: Seq<char>, ws2: Seq<char>, j: int) -> (w: Json)
    requires
        members_wf(done),
        q == p + seq!['{'] + members_lead(done),
        run(q) == members_state(q, a, done),
        all_ws(before),
        is_string_body(key),
        all_ws(ws1),
        all_ws(ws2),
        before.len() < j <= key_head(before, key, ws1, ws2).len(),
    ensures
        json_wf(w),
        completion(q + key_head(before, key, ws1, ws2).take(j), CompletionMode::RollbackAware) == p
            + text(w) + closing(a.stack),
{
    lemma_cut_member_head(q, a, done, before, key, ws1, ws2, j);
    let mk = member_mark(q, a, done, before);
    if done is Cons {
        assert((q + before).take(mk.offset as int) =~= p + seq!['{'] + members_text(done));
        let w = Json::Obj { blank: Seq::empty(), members: done };
        assert(p + seq!['{'] + members_text(done) + seq!['}'] =~= p + text(w));
        w
    } else {
        assert((q + before).take(mk.offset as int) =~= p + seq!['{'] + before);
        let w = Json::Obj { blank: before, members: Members::Nil };
        assert(p + seq!['{'] + before + seq!['}'] =~= p + text(w));
        w
    }
}

#[verifier::rlimit(100)]
proof fn lemma_members_value_case(p: Seq<char>, a: ParseModel, done: Members, q: Seq<char>, before: Seq<char>, key: Seq<char>, ws1: Seq<char>, ws2: Seq<char>, value: Json, wv: Json, jv: int) -> (w: Json)
    requires
        members_wf(done),
        q == p + seq!['{'] + members_lead(done),
        run(q) == members_state(q, a, done),
        all_ws(before),
        is_string_body(key),
        all_ws(ws1),
        all_ws(ws2),
        json_wf(wv),
        completion(q + key_head(before, key, ws1, ws2) + text(value).take(jv), CompletionMode::RollbackAware)
            == q + key_head(before, key, ws1, ws2) + text(wv) + closing(
            after_value(run(q + key_head(before, key, ws1, ws2))).stack,
        ),
    ensures
        json_wf(w),
        completion(q + key_head(before, key, ws1, ws2) + text(value).take(jv), CompletionMode::RollbackAware)
            == p + text(w) + closing(a.stack),
{
    lemma_member_states(q, a, done, before, key, ws1, ws2);
    let q4 = q + key_head(before, key, ws1, ws2);
    let settled_stack = a.stack.push(Context::ObjectAwaitingComma);
    lemma_closing_push(a.stack, Context::ObjectAwaitingComma);
    assert(after_value(run(q4)).stack =~= settled_stack);
    lemma_snoc_member(done, before, key, ws1, ws2, wv, Seq::empty());
    let w = Json::Obj { blank: Seq::empty(), members: snoc_member(done, before, key, ws1, ws2, wv, Seq::empty()) };
    assert(q4 + text(wv) + closing(settled_stack) =~= p + text(w) + closing(a.stack));
    w
}

#[verifier::rlimit(100)]
proof fn lemma_members_after_case(p: Seq<char>, a: ParseModel, done: Members, q: Seq<char>, before: Seq<char>, key: Seq<char>, ws1: Seq<char>, ws2: Seq<char>, value: Json, after: Seq<char>, ja: int) -> (w: Json)
    requires
        members_wf(done),
        q == p + seq!['{'] + members_lead(done),
        run(q) == members_state(q, a, done),
        all_ws(before),
        is_string_body(key),
        all_ws(ws1),
        all_ws(ws2),
        json_wf(value),
        all_ws(after),
        1 <= ja <= after.len(),
    ensures
        json_wf(w),
        completion(q + key_head(before, key, ws1, ws2) + text(value) + after.take(ja), CompletionMode::RollbackAware)
            == p + text(w) + closing(a.stack),
{
    lemma_member_states(q, a, done, before, key, ws1, ws2);
    let q4 = q + key_head(before, key, ws1, ws2);
    lemma_value_run(q4, value);
    let q5 = q4 + text(value);
    let base = after_value(run(q4));
    let settled_stack = a.stack.push(Context::ObjectAwaitingComma);
    lemma_closing_push(a.stack, Context::ObjectAwaitingComma);
    assert(base.stack =~= settled_stack);
    let aj = after.take(ja);
    assert(all_ws(aj));
    lemma_trailing_end(q5, base, value, aj);
    let t = q5 + aj;
    lemma_completion_unmarked(t);
    lemma_snoc_member(done, before, key, ws1, ws2, value, aj);
    let w = Json::Obj { blank: Seq::empty(), members: snoc_member(done, before, key, ws1, ws2, value, aj) };
    assert(t + closing(settled_stack) =~= p + text(w) + closing(a.stack));
    w
}

#[verifier::rlimit(100)]
proof fn lemma_members_comma_case(p: Seq<char>, a: ParseModel, done: Members, q: Seq<char>, before: Seq<char>, key: Seq<char>, ws1: Seq<char>, ws2: Seq<char>, value: Json, after: Seq<char>)
    requires
        a.escape is None,
        a.item is None,
        members_wf(done),
        q == p + seq!['{'] + members_lead(done),
        run(q) == members_state(q, a, done),
        all_ws(before),
        is_string_body(key),
        all_ws(ws1),
        all_ws(ws2),
        json_wf(value),
        all_ws(after),
    ensures
        members_wf(snoc_member(done, before, key, ws1, ws2, value, after)),
        q + key_head(before, key, ws1, ws2) + text(value) + after + seq![','] == p + seq!['{']
            + members_lead(snoc_member(done, before, key, ws1, ws2, value, after)),
        run(q + key_head(before, key, ws1, ws2) + text(value) + after + seq![','])
            == members_state(
            q + key_head(before, key, ws1, ws2) + text(value) + after + seq![','],
            a,
            snoc_member(done, before, key, ws1, ws2, value, after),
        ),
{
    lemma_member_states(q, a, done, before, key, ws1, ws2);
    let q4 = q + key_head(before, key, ws1, ws2);
    lemma_value_run(q4, value);
    let q5 = q4 + text(value);
    let base = after_value(run(q4));
    assert(base.stack =~= a.stack.push(Context::ObjectAwaitingComma));
    lemma_trailing(q5, base, value, after, ',');
    let q6 = q5 + after + seq![','];
    let done2 = snoc_member(done, before, key, ws1, ws2, value, after);
    lemma_snoc_member(done, before, key, ws1, ws2, value, after);
    assert(q6 =~= p + seq!['{'] + members_lead(done2));
    assert(run(q6).stack =~= a.stack.push(Context::ObjectAwaitingKey));
}

/// A cut inside the members of an object, after the members `done`, completes to an object.
#[verifier::rlimit(100)]
pub proof fn lemma_cut_members(p: Seq<char>, a: ParseModel, done: Members, q: Seq<char>, members: Members, j: int) -> (w: Json)
    requires
        a.escape is None,
        a.item is None,
        members_wf(done),
        members_wf(members),
        members is Cons,
        q == p + seq!['{'] + members_lead(done),
        run(q) == members_state(q, a, done),
        0 <= j <= members_text(members).len(),
    ensures
        json_wf(w),
        completion(q + members_text(members).take(j), CompletionMode::RollbackAware) == p + text(w)
            + closing(a.stack),
    decreases members,
{
    let before = members->before;
    let key = members->key;
    let ws1 = members->ws1;
    let ws2 = members->ws2;
    let value = *members->value;
    let after = members->after;
    let rest = *members->rest;
    let h = key_head(before, key, ws1, ws2);
    let lb = before.len() as int;
    let lh = h.len() as int;
    let lv = text(value).len() as int;
    let la = after.len() as int;
    let mt = members_text(members);
    let tail: Seq<char> = match rest {
        Members::Nil => Seq::empty(),
        Members::Cons { .. } => seq![','] + members_text(rest),
    };
    assert(mt =~= h + text(value) + after + tail);
    if j <= lb {
        assert(mt.take(j) =~= before.take(j));
        lemma_members_lead_case(p, a, done, q, before, j)
    } else if j <= lh {
        assert(mt.take(j) =~= h.take(j));
        lemma_members_head_case(p, a, done, q, before, key, ws1, ws2, j)
    } else if j <= lh + lv {
        lemma_member_states(q, a, done, before, key, ws1, ws2);
        let wv = lemma_cut_value(q + h, value, j - lh);
        assert(q + h + text(value).take(j - lh) =~= q + mt.take(j));
        lemma_members_value_case(p, a, done, q, before, key, ws1, ws2, value, wv, j - lh)
    } else if j <= lh + lv + la {
        assert(q + h + text(value) + after.take(j - lh - lv) =~= q + mt.take(j));
        lemma_members_after_case(p, a, done, q, before, key, ws1, ws2, value, after, j - lh - lv)
    } else {
        lemma_members_comma_case(p, a, done, q, before, key, ws1, ws2, value, after);
        let q6 = q + h + text(value) + after + seq![','];
        let done2 = snoc_member(done, before, key, ws1, ws2, value, after);
        let w = lemma_cut_members(p, a, done2, q6, rest, j - lh - lv - la - 1);
        assert(q6 + members_text(rest).take(j - lh - lv - la - 1) =~= q + mt.take(j));
        w
    }
}

} // verus!
