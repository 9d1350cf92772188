//! The JSON grammar, as far as the properties of the completion speak of it, and what the
//! automaton and the scanner do on text that follows it.
use vstd::prelude::*;
use crate::automaton::{
    ParseModel, advance, is_digit, is_hex, is_ws, pop_ctx, push_ctx, run, step, top,
    value_start,
};
use crate::context::{Context, Literal, closer, word};
use crate::scanner::{ScanModel, scan, scan_step};

verus! {

/// A character that may stand unescaped inside a JSON string.
pub open spec fn is_plain_string_char(c: char) -> bool {
    c != '"' && c != '\\' && c >= ' '
}

/// A character that may follow a backslash in a JSON string, other than `u`.
pub open spec fn is_simple_escape(c: char) -> bool {
    c == '"' || c == '\\' || c == '/' || c == 'b' || c == 'f' || c == 'n' || c == 'r' || c == 't'
}

/// Whether `body` is the text of a JSON string between its quotes.
pub open spec fn is_string_body(body: Seq<char>) -> bool
    decreases body.len(),
{
    if body.len() == 0 {
        true
    } else if is_plain_string_char(body[0]) {
        is_string_body(body.drop_first())
    } else if body[0] == '\\' && body.len() >= 2 && is_simple_escape(body[1]) {
        is_string_body(body.subrange(2, body.len() as int))
    } else if body[0] == '\\' && body.len() >= 6 && body[1] == 'u' && is_hex(body[2]) && is_hex(
        body[3],
    ) && is_hex(body[4]) && is_hex(body[5]) {
        is_string_body(body.subrange(6, body.len() as int))
    } else {
        false
    }
}

pub proof fn lemma_run_push(q: Seq<char>, c: char)
    ensures
        run(q.push(c)) == step(run(q), c, q.len()),
{
    assert(q.push(c).drop_last() =~= q);
}

pub proof fn lemma_scan_push(q: Seq<char>, c: char)
    ensures
        scan(q.push(c)) == scan_step(scan(q), c),
{
    assert(q.push(c).drop_last() =~= q);
}

pub proof fn lemma_plain_char_run(p: Seq<char>, c: char)
    requires
        top(run(p)) == Context::InString,
        is_plain_string_char(c),
    ensures
        run(p.push(c)) == run(p),
{
    lemma_run_push(p, c);
}

pub proof fn lemma_simple_escape_run(p: Seq<char>, e: char)
    requires
        top(run(p)) == Context::InString,
        run(p).escape is None,
        is_simple_escape(e),
    ensures
        run(p.push('\\').push(e)) == run(p),
{
    let m = run(p);
    lemma_run_push(p, '\\');
    lemma_run_push(p.push('\\'), e);
    assert(run(p.push('\\').push(e)).stack =~= m.stack);
}

pub proof fn lemma_unicode_start_run(p: Seq<char>)
    requires
        top(run(p)) == Context::InString,
        run(p).escape is None,
    ensures
        run(p.push('\\').push('u')) == (ParseModel {
            stack: run(p).stack.push(Context::InStringUnicodeEscape { digits: 0 }),
            escape: Some(crate::automaton::Mark { offset: p.len(), depth: run(p).stack.len() }),
            ..run(p)
        }),
{
    lemma_run_push(p, '\\');
    lemma_run_push(p.push('\\'), 'u');
    assert(run(p.push('\\').push('u')).stack =~= run(p).stack.push(
        Context::InStringUnicodeEscape { digits: 0 },
    ));
}

pub proof fn lemma_unicode_digit_run(q: Seq<char>, h: char, m: ParseModel, d: u8)
    requires
        is_hex(h),
        d < 4,
        run(q) == (ParseModel {
            stack: m.stack.push(Context::InStringUnicodeEscape { digits: d }),
            ..m
        }),
    ensures
        d < 3 ==> run(q.push(h)) == (ParseModel {
            stack: m.stack.push(Context::InStringUnicodeEscape { digits: (d + 1) as u8 }),
            ..m
        }),
        d == 3 ==> run(q.push(h)) == (ParseModel { escape: None, ..m }),
{
    lemma_run_push(q, h);
    if d < 3 {
        assert(run(q.push(h)).stack =~= m.stack.push(
            Context::InStringUnicodeEscape { digits: (d + 1) as u8 },
        ));
    } else {
        assert(run(q.push(h)).stack =~= m.stack);
    }
}

pub proof fn lemma_unicode_escape_run(p: Seq<char>, body: Seq<char>)
    requires
        top(run(p)) == Context::InString,
        run(p).escape is None,
        body.len() >= 6,
        body[0] == '\\',
        body[1] == 'u',
        is_hex(body[2]),
        is_hex(body[3]),
        is_hex(body[4]),
        is_hex(body[5]),
    ensures
        run(p + body.take(6)) == run(p),
{
    let m = run(p);
    let m1 = ParseModel {
        escape: Some(crate::automaton::Mark { offset: p.len(), depth: m.stack.len() }),
        ..m
    };
    let p2 = p.push('\\').push('u');
    lemma_unicode_start_run(p);
    lemma_unicode_digit_run(p2, body[2], m1, 0);
    lemma_unicode_digit_run(p2.push(body[2]), body[3], m1, 1);
    lemma_unicode_digit_run(p2.push(body[2]).push(body[3]), body[4], m1, 2);
    lemma_unicode_digit_run(p2.push(body[2]).push(body[3]).push(body[4]), body[5], m1, 3);
    assert(p2.push(body[2]).push(body[3]).push(body[4]).push(body[5]) =~= p + body.take(6));
}

/// Inside a string with no escape pending, the automaton ends the body of a string in the
/// state it began it in.
pub proof fn lemma_string_body_run(p: Seq<char>, body: Seq<char>)
    requires
        top(run(p)) == Context::InString,
        run(p).escape is None,
        is_string_body(body),
    ensures
        run(p + body) == run(p),
    decreases body.len(),
{
    if body.len() == 0 {
        assert(p + body =~= p);
    } else {
        let c = body[0];
        if is_plain_string_char(c) {
            lemma_plain_char_run(p, c);
            assert(p.push(c) + body.drop_first() =~= p + body);
            lemma_string_body_run(p.push(c), body.drop_first());
        } else if c == '\\' && body.len() >= 2 && is_simple_escape(body[1]) {
            let p2 = p.push(c).push(body[1]);
            lemma_simple_escape_run(p, body[1]);
            assert(p2 + body.subrange(2, body.len() as int) =~= p + body);
            lemma_string_body_run(p2, body.subrange(2, body.len() as int));
        } else {
            lemma_unicode_escape_run(p, body);
            assert(p + body.take(6) + body.subrange(6, body.len() as int) =~= p + body);
            lemma_string_body_run(p + body.take(6), body.subrange(6, body.len() as int));
        }
    }
}

/// Inside a string, after no backslash, the scanner ends the body of a string in the state
/// it began it in.
pub proof fn lemma_string_body_scan(p: Seq<char>, body: Seq<char>, sm: ScanModel)
    requires
        scan(p) == Some(sm),
        sm.in_string,
        !sm.escaped,
        is_string_body(body),
    ensures
        scan(p + body) == Some(sm),
    decreases body.len(),
{
    if body.len() == 0 {
        assert(p + body =~= p);
    } else {
        let c = body[0];
        if is_plain_string_char(c) {
            lemma_scan_push(p, c);
            assert(p.push(c) + body.drop_first() =~= p + body);
            lemma_string_body_scan(p.push(c), body.drop_first(), sm);
        } else if c == '\\' && body.len() >= 2 && is_simple_escape(body[1]) {
            let p2 = p.push(c).push(body[1]);
            lemma_scan_push(p, c);
            lemma_scan_push(p.push(c), body[1]);
            assert(p2 + body.subrange(2, body.len() as int) =~= p + body);
            lemma_string_body_scan(p2, body.subrange(2, body.len() as int), sm);
        } else {
            let p1 = p.push(c);
            let p2 = p1.push(body[1]);
            let p3 = p2.push(body[2]);
            let p4 = p3.push(body[3]);
            let p5 = p4.push(body[4]);
            let p6 = p5.push(body[5]);
            lemma_scan_push(p, c);
            lemma_scan_push(p1, body[1]);
            lemma_scan_push(p2, body[2]);
            lemma_scan_push(p3, body[3]);
            lemma_scan_push(p4, body[4]);
            lemma_scan_push(p5, body[5]);
            assert(p6 + body.subrange(6, body.len() as int) =~= p + body);
            lemma_string_body_scan(p6, body.subrange(6, body.len() as int), sm);
        }
    }
}

/// A JSON text parsed down to its characters, whitespace included.
pub enum Json {
    /// A string, by the text between its quotes.
    Str { body: Seq<char> },
    /// A number: an optional minus, the integer digits, the fraction digits (none if
    /// empty) and the exponent (none if its digits are empty; `mark` is the letter and an
    /// optional sign).
    Num { minus: bool, whole: Seq<char>, frac: Seq<char>, mark: Seq<char>, exp: Seq<char> },
    Lit { kind: Literal },
    /// An array; `blank` is the whitespace inside an empty one.
    Arr { blank: Seq<char>, items: Elems },
    /// An object; `blank` is the whitespace inside an empty one.
    Obj { blank: Seq<char>, members: Members },
}

/// The elements of an array, each with the whitespace around it.
pub enum Elems {
    Nil,
    Cons { before: Seq<char>, value: Box<Json>, after: Seq<char>, rest: Box<Elems> },
}

/// The members of an object, each with the whitespace around its key, colon and value.
pub enum Members {
    Nil,
    Cons {
        before: Seq<char>,
        key: Seq<char>,
        ws1: Seq<char>,
        ws2: Seq<char>,
        value: Box<Json>,
        after: Seq<char>,
        rest: Box<Members>,
    },
}

pub open spec fn all_ws(s: Seq<char>) -> bool {
    forall|k: int| 0 <= k < s.len() ==> crate::automaton::is_ws(#[trigger] s[k])
}

pub open spec fn all_digits(s: Seq<char>) -> bool {
    forall|k: int| 0 <= k < s.len() ==> crate::automaton::is_digit(#[trigger] s[k])
}

/// The exponent marks: a letter `e` or `E`, then an optional sign.
pub open spec fn is_exp_mark(m: Seq<char>) -> bool {
    &&& 1 <= m.len() <= 2
    &&& (m[0] == 'e' || m[0] == 'E')
    &&& m.len() == 2 ==> (m[1] == '+' || m[1] == '-')
}

pub open spec fn number_text(minus: bool, whole: Seq<char>, frac: Seq<char>, mark: Seq<char>, exp: Seq<char>) -> Seq<char> {
    (if minus {
        seq!['-']
    } else {
        Seq::empty()
    }) + whole + (if frac.len() > 0 {
        seq!['.'] + frac
    } else {
        Seq::empty()
    }) + (if exp.len() > 0 {
        mark + exp
    } else {
        Seq::empty()
    })
}

/// The characters of a JSON text.
pub open spec fn text(v: Json) -> Seq<char>
    decreases v,
{
    match v {
        Json::Str { body } => seq!['"'] + body + seq!['"'],
        Json::Num { minus, whole, frac, mark, exp } => number_text(minus, whole, frac, mark, exp),
        Json::Lit { kind } => word(kind),
        Json::Arr { blank, items } => match items {
            Elems::Nil => seq!['['] + blank + seq![']'],
            Elems::Cons { .. } => seq!['['] + elems_text(items) + seq![']'],
        },
        Json::Obj { blank, members } => match members {
            Members::Nil => seq!['{'] + blank + seq!['}'],
            Members::Cons { .. } => seq!['{'] + members_text(members) + seq!['}'],
        },
    }
}

/// The elements of an array, separated by commas.
pub open spec fn elems_text(items: Elems) -> Seq<char>
    decreases items,
{
    match items {
        Elems::Nil => Seq::empty(),
        Elems::Cons { before, value, after, rest } => before + text(*value) + after + match *rest {
            Elems::Nil => Seq::empty(),
            Elems::Cons { .. } => seq![','] + elems_text(*rest),
        },
    }
}

/// The members of an object, separated by commas.
pub open spec fn members_text(members: Members) -> Seq<char>
    decreases members,
{
    match members {
        Members::Nil => Seq::empty(),
        Members::Cons { before, key, ws1, ws2, value, after, rest } => before + seq!['"'] + key
            + seq!['"'] + ws1 + seq![':'] + ws2 + text(*value) + after + match *rest {
            Members::Nil => Seq::empty(),
            Members::Cons { .. } => seq![','] + members_text(*rest),
        },
    }
}

/// Whether every part of `v` follows the JSON grammar.
pub open spec fn json_wf(v: Json) -> bool
    decreases v,
{
    match v {
        Json::Str { body } => is_string_body(body),
        Json::Num { minus, whole, frac, mark, exp } => {
            &&& whole.len() >= 1
            &&& all_digits(whole)
            &&& whole[0] == '0' ==> whole.len() == 1
            &&& all_digits(frac)
            &&& all_digits(exp)
            &&& exp.len() > 0 ==> is_exp_mark(mark)
        },
        Json::Lit { .. } => true,
        Json::Arr { blank, items } => all_ws(blank) && elems_wf(items),
        Json::Obj { blank, members } => all_ws(blank) && members_wf(members),
    }
}

pub open spec fn elems_wf(items: Elems) -> bool
    decreases items,
{
    match items {
        Elems::Nil => true,
        Elems::Cons { before, value, after, rest } => all_ws(before) && json_wf(*value) && all_ws(
            after,
        ) && elems_wf(*rest),
    }
}

pub open spec fn members_wf(members: Members) -> bool
    decreases members,
{
    match members {
        Members::Nil => true,
        Members::Cons { before, key, ws1, ws2, value, after, rest } => all_ws(before)
            && is_string_body(key) && all_ws(ws1) && all_ws(ws2) && json_wf(*value) && all_ws(
            after,
        ) && members_wf(*rest),
    }
}

/// Whether whitespace leaves context `ctx` as it is.
pub open spec fn is_structural(ctx: Context) -> bool {
    ctx == Context::TopLevel || ctx == Context::ArrayAwaitingValue || ctx
        == Context::ArrayAwaitingComma || ctx == Context::ObjectAwaitingKey || ctx
        == Context::ObjectAwaitingColon || ctx == Context::ObjectAwaitingValue || ctx
        == Context::ObjectAwaitingComma
}

/// Whether a value may start in context `ctx`.
pub open spec fn awaits_value(ctx: Context) -> bool {
    ctx == Context::TopLevel || ctx == Context::ArrayAwaitingValue || ctx
        == Context::ObjectAwaitingValue
}

/// The context that a value-awaiting context becomes once its value has started.
pub open spec fn settled(ctx: Context) -> Context {
    match ctx {
        Context::ArrayAwaitingValue => Context::ArrayAwaitingComma,
        Context::ObjectAwaitingValue => Context::ObjectAwaitingComma,
        _ => ctx,
    }
}

/// The state once a value has been read where `m` awaited it, but for a trailing number or
/// literal that stays open until the character after it.
pub open spec fn after_value(m: ParseModel) -> ParseModel {
    ParseModel {
        stack: if top(m) == Context::TopLevel {
            m.stack
        } else {
            m.stack.update(m.stack.len() - 1, settled(top(m)))
        },
        escape: None,
        item: None,
    }
}

/// The context that stays open after the text of `v`, if any.
pub open spec fn token_of(v: Json) -> Option<Context> {
    match v {
        Json::Num { .. } => Some(Context::InNumber),
        Json::Lit { kind } => Some(Context::InLiteral { kind, matched: word(kind).len() as u8 }),
        _ => None,
    }
}

pub open spec fn with_token(m: ParseModel, v: Json) -> ParseModel {
    match token_of(v) {
        Some(t) => push_ctx(m, t),
        None => m,
    }
}

pub proof fn lemma_ws_run_from(q: Seq<char>, w: Seq<char>)
    requires
        is_structural(top(run(q))),
        all_ws(w),
    ensures
        run(q + w) == run(q),
    decreases w.len(),
{
    if w.len() == 0 {
        assert(q + w =~= q);
    } else {
        lemma_run_push(q, w[0]);
        assert(is_ws(w[0]));
        assert(q.push(w[0]) + w.drop_first() =~= q + w);
        lemma_ws_run_from(q.push(w[0]), w.drop_first());
    }
}

/// A character that may follow a value in a collection.
pub open spec fn is_follower(c: char) -> bool {
    is_ws(c) || c == ',' || c == ']' || c == '}'
}

pub proof fn lemma_follow(q: Seq<char>, base: ParseModel, v: Json, c: char)
    requires
        run(q) == with_token(base, v),
        is_structural(top(base)),
        is_follower(c),
    ensures
        run(q.push(c)) == advance(base, c, q.len()),
{
    lemma_run_push(q, c);
    if token_of(v) is Some {
        assert(pop_ctx(with_token(base, v)).stack =~= base.stack);
    }
}

/// Whitespace and then `c` after a value: the open number or literal, if any, is closed
/// and `c` is read where the value was awaited.
pub proof fn lemma_trailing(q: Seq<char>, base: ParseModel, v: Json, w: Seq<char>, c: char)
    requires
        run(q) == with_token(base, v),
        is_structural(top(base)),
        all_ws(w),
        c == ',' || c == ']' || c == '}',
    ensures
        run(q + w + seq![c]) == advance(base, c, q.len() + w.len()),
    decreases w.len(),
{
    if w.len() == 0 {
        assert(q + w + seq![c] =~= q.push(c));
        lemma_follow(q, base, v, c);
    } else {
        assert(is_ws(w[0]));
        lemma_follow(q, base, v, w[0]);
        let s = Json::Str { body: Seq::empty() };
        assert(q.push(w[0]) + w.drop_first() + seq![c] =~= q + w + seq![c]);
        lemma_trailing(q.push(w[0]), base, s, w.drop_first(), c);
    }
}

/// Whitespace at the end of the text after a value closes its open number or literal.
pub proof fn lemma_trailing_end(q: Seq<char>, base: ParseModel, v: Json, w: Seq<char>)
    requires
        run(q) == with_token(base, v),
        is_structural(top(base)),
        all_ws(w),
    ensures
        w.len() > 0 ==> run(q + w) == base,
        w.len() == 0 ==> run(q + w) == with_token(base, v),
{
    if w.len() == 0 {
        assert(q + w =~= q);
    } else {
        assert(is_ws(w[0]));
        lemma_follow(q, base, v, w[0]);
        assert(q.push(w[0]) + w.drop_first() =~= q + w);
        lemma_ws_run_from(q.push(w[0]), w.drop_first());
    }
}

pub proof fn lemma_start(p: Seq<char>, c: char, ctx: Context)
    requires
        awaits_value(top(run(p))),
        run(p).escape is None,
        top(run(p)) == Context::TopLevel ==> run(p).item is None,
        value_start(c) == Some(ctx),
    ensures
        run(p.push(c)) == push_ctx(after_value(run(p)), ctx),
{
    lemma_run_push(p, c);
    let m = run(p);
    if top(m) == Context::TopLevel {
        assert(run(p.push(c)).stack =~= after_value(m).stack.push(ctx));
    } else {
        assert(run(p.push(c)).stack =~= after_value(m).stack.push(ctx));
    }
}

pub proof fn lemma_digits_stay(q: Seq<char>, ds: Seq<char>)
    requires
        top(run(q)) == Context::InNumber,
        all_digits(ds),
    ensures
        run(q + ds) == run(q),
    decreases ds.len(),
{
    if ds.len() == 0 {
        assert(q + ds =~= q);
    } else {
        assert(is_digit(ds[0]));
        lemma_run_push(q, ds[0]);
        assert(q.push(ds[0]) + ds.drop_first() =~= q + ds);
        lemma_digits_stay(q.push(ds[0]), ds.drop_first());
    }
}

/// Digits where a number awaits one: the number is whole again.
pub proof fn lemma_digits_from(q: Seq<char>, a: ParseModel, ctx: Context, ds: Seq<char>)
    requires
        ctx == Context::NumberNeedsDigit || ctx == Context::NumberNeedsExponentDigit,
        run(q) == push_ctx(a, ctx),
        ds.len() >= 1,
        all_digits(ds),
    ensures
        run(q + ds) == push_ctx(a, Context::InNumber),
{
    assert(is_digit(ds[0]));
    lemma_run_push(q, ds[0]);
    assert(run(q.push(ds[0])).stack =~= a.stack.push(Context::InNumber));
    assert(q.push(ds[0]) + ds.drop_first() =~= q + ds);
    lemma_digits_stay(q.push(ds[0]), ds.drop_first());
}

/// After one more character `c`, the number context of `a` becomes `next`.
pub proof fn lemma_number_char(q: Seq<char>, a: ParseModel, from: Context, c: char, next: Context)
    requires
        run(q) == push_ctx(a, from),
        step(push_ctx(a, from), c, q.len()) == push_ctx(a, next),
    ensures
        run(q.push(c)) == push_ctx(a, next),
{
    lemma_run_push(q, c);
}

#[verifier::rlimit(100)]
pub proof fn lemma_number_run(
    p: Seq<char>,
    minus: bool,
    whole: Seq<char>,
    frac: Seq<char>,
    mark: Seq<char>,
    exp: Seq<char>,
)
    requires
        awaits_value(top(run(p))),
        run(p).escape is None,
        top(run(p)) == Context::TopLevel ==> run(p).item is None,
        json_wf(Json::Num { minus, whole, frac, mark, exp }),
    ensures
        run(p + number_text(minus, whole, frac, mark, exp)) == push_ctx(
            after_value(run(p)),
            Context::InNumber,
        ),
{
    let a = after_value(run(p));
    let sign: Seq<char> = if minus {
        seq!['-']
    } else {
        Seq::empty()
    };
    let fpart: Seq<char> = if frac.len() > 0 {
        seq!['.'] + frac
    } else {
        Seq::empty()
    };
    let epart: Seq<char> = if exp.len() > 0 {
        mark + exp
    } else {
        Seq::empty()
    };
    let q1 = p + sign + whole;
    assert(is_digit(whole[0]));
    if minus {
        assert(p + sign =~= p.push('-'));
        lemma_start(p, '-', Context::NumberNeedsDigit);
        lemma_digits_from(p + sign, a, Context::NumberNeedsDigit, whole);
    } else {
        assert(p + sign =~= p);
        lemma_start(p, whole[0], Context::InNumber);
        assert(p.push(whole[0]) + whole.drop_first() =~= q1);
        lemma_digits_stay(p.push(whole[0]), whole.drop_first());
    }
    let q2 = q1 + fpart;
    if frac.len() > 0 {
        assert(step(push_ctx(a, Context::InNumber), '.', q1.len()).stack =~= a.stack.push(
            Context::NumberNeedsDigit,
        ));
        lemma_number_char(q1, a, Context::InNumber, '.', Context::NumberNeedsDigit);
        assert(q1.push('.') + frac =~= q2);
        lemma_digits_from(q1.push('.'), a, Context::NumberNeedsDigit, frac);
    } else {
        assert(q2 =~= q1);
    }
    let q3 = q2 + epart;
    if exp.len() > 0 {
        let e = mark[0];
        assert(step(push_ctx(a, Context::InNumber), e, q2.len()).stack =~= a.stack.push(
            Context::NumberNeedsExponentDigit,
        ));
        lemma_number_char(q2, a, Context::InNumber, e, Context::NumberNeedsExponentDigit);
        if mark.len() == 2 {
            let sg = mark[1];
            assert(step(push_ctx(a, Context::NumberNeedsExponentDigit), sg, q2.len() + 1).stack
                =~= a.stack.push(Context::NumberNeedsDigit));
            lemma_number_char(
                q2.push(e),
                a,
                Context::NumberNeedsExponentDigit,
                sg,
                Context::NumberNeedsDigit,
            );
            assert(q2.push(e).push(sg) + exp =~= q3);
            lemma_digits_from(q2.push(e).push(sg), a, Context::NumberNeedsDigit, exp);
        } else {
            assert(q2.push(e) + exp =~= q3);
            lemma_digits_from(q2.push(e), a, Context::NumberNeedsExponentDigit, exp);
        }
    } else {
        assert(q3 =~= q2);
    }
    assert(q3 =~= p + number_text(minus, whole, frac, mark, exp));
}

proof fn lemma_literal_letters(p: Seq<char>, kind: Literal, a: ParseModel, n: int)
    requires
        1 <= n <= word(kind).len(),
        run(p + word(kind).take(1)) == push_ctx(a, Context::InLiteral { kind, matched: 1 }),
    ensures
        run(p + word(kind).take(n)) == push_ctx(a, Context::InLiteral { kind, matched: n as u8 }),
    decreases n,
{
    if n > 1 {
        let w = word(kind);
        lemma_literal_letters(p, kind, a, n - 1);
        assert((p + w.take(n - 1)).push(w[n - 1]) =~= p + w.take(n));
        lemma_run_push(p + w.take(n - 1), w[n - 1]);
        assert(run(p + w.take(n)).stack =~= a.stack.push(
            Context::InLiteral { kind, matched: n as u8 },
        ));
    }
}

/// The letters of a literal where a value is awaited leave the literal open, every letter
/// matched.
pub proof fn lemma_literal_run(p: Seq<char>, kind: Literal, j: int)
    requires
        awaits_value(top(run(p))),
        run(p).escape is None,
        top(run(p)) == Context::TopLevel ==> run(p).item is None,
        1 <= j <= word(kind).len(),
    ensures
        run(p + word(kind).take(j)) == push_ctx(
            after_value(run(p)),
            Context::InLiteral { kind, matched: j as u8 },
        ),
{
    let w = word(kind);
    lemma_start(p, w[0], Context::InLiteral { kind, matched: 1 });
    assert(p.push(w[0]) =~= p + w.take(1));
    lemma_literal_letters(p, kind, after_value(run(p)), j);
}

/// The text of a value where one is awaited leaves the awaiting context settled, nothing
/// pending, and a trailing number or literal open.
#[verifier::rlimit(100)]
pub proof fn lemma_value_run(p: Seq<char>, v: Json)
    requires
        awaits_value(top(run(p))),
        run(p).escape is None,
        top(run(p)) == Context::TopLevel ==> run(p).item is None,
        json_wf(v),
    ensures
        run(p + text(v)) == with_token(after_value(run(p)), v),
    decreases v,
{
    let m = run(p);
    let a = after_value(m);
    match v {
        Json::Str { body } => {
            lemma_start(p, '"', Context::InString);
            lemma_string_body_run(p.push('"'), body);
            lemma_run_push(p.push('"') + body, '"');
            assert((p.push('"') + body).push('"') =~= p + text(v));
            assert(run(p + text(v)).stack =~= a.stack);
        },
        Json::Num { minus, whole, frac, mark, exp } => {
            lemma_number_run(p, minus, whole, frac, mark, exp);
        },
        Json::Lit { kind } => {
            lemma_literal_run(p, kind, word(kind).len() as int);
            assert(word(kind).take(word(kind).len() as int) =~= word(kind));
        },
        Json::Arr { blank, items } => {
            lemma_start(p, '[', Context::ArrayAwaitingValue);
            let q = p.push('[');
            match items {
                Elems::Nil => {
                    lemma_ws_run_from(q, blank);
                    lemma_run_push(q + blank, ']');
                    assert((q + blank).push(']') =~= p + text(v));
                    assert(run(p + text(v)).stack =~= a.stack);
                },
                Elems::Cons { .. } => {
                    lemma_elems_run(q, items);
                    assert(q + elems_text(items) + seq![']'] =~= p + text(v));
                    assert(run(q).stack.drop_last() =~= a.stack);
                },
            }
        },
        Json::Obj { blank, members } => {
            lemma_start(p, '{', Context::ObjectAwaitingKey);
            let q = p.push('{');
            match members {
                Members::Nil => {
                    lemma_ws_run_from(q, blank);
                    lemma_run_push(q + blank, '}');
                    assert((q + blank).push('}') =~= p + text(v));
                    assert(run(p + text(v)).stack =~= a.stack);
                },
                Members::Cons { .. } => {
                    lemma_members_run(q, members);
                    assert(q + members_text(members) + seq!['}'] =~= p + text(v));
                    assert(run(q).stack.drop_last() =~= a.stack);
                },
            }
        },
    }
}

/// The elements of an array and its closing bracket close the array.
pub proof fn lemma_elems_run(q: Seq<char>, items: Elems)
    requires
        top(run(q)) == Context::ArrayAwaitingValue,
        run(q).escape is None,
        elems_wf(items),
        items is Cons,
    ensures
        run(q + elems_text(items) + seq![']']) == (ParseModel {
            stack: run(q).stack.drop_last(),
            escape: None,
            item: None,
        }),
    decreases items,
{
    match items {
        Elems::Nil => {},
        Elems::Cons { before, value, after, rest } => {
            let m = run(q);
            lemma_ws_run_from(q, before);
            let q1 = q + before;
            lemma_value_run(q1, *value);
            let q2 = q1 + text(*value);
            let base = after_value(m);
            match *rest {
                Elems::Nil => {
                    lemma_trailing(q2, base, *value, after, ']');
                    assert(q2 + after + seq![']'] =~= q + elems_text(items) + seq![']']);
                    assert(pop_ctx(base).stack =~= m.stack.drop_last());
                },
                Elems::Cons { .. } => {
                    lemma_trailing(q2, base, *value, after, ',');
                    let q3 = q2 + after + seq![','];
                    assert(run(q3).stack =~= m.stack);
                    lemma_elems_run(q3, *rest);
                    assert(q3 + elems_text(*rest) + seq![']'] =~= q + elems_text(items) + seq![']']);
                },
            }
        },
    }
}

/// The members of an object and its closing brace close the object.
#[verifier::rlimit(100)]
pub proof fn lemma_members_run(q: Seq<char>, members: Members)
    requires
        top(run(q)) == Context::ObjectAwaitingKey,
        run(q).escape is None,
        members_wf(members),
        members is Cons,
    ensures
        run(q + members_text(members) + seq!['}']) == (ParseModel {
            stack: run(q).stack.drop_last(),
            escape: None,
            item: None,
        }),
    decreases members,
{
    match members {
        Members::Nil => {},
        Members::Cons { before, key, ws1, ws2, value, after, rest } => {
            let m = run(q);
            let n = m.stack.len();
            lemma_ws_run_from(q, before);
            let q1 = q + before;
            lemma_run_push(q1, '"');
            let mk = run(q1.push('"')).item;
            let colon_stack = m.stack.update(n - 1, Context::ObjectAwaitingColon);
            assert(run(q1.push('"')).stack =~= colon_stack.push(Context::InString));
            lemma_string_body_run(q1.push('"'), key);
            let q2 = q1.push('"') + key;
            lemma_run_push(q2, '"');
            assert(run(q2.push('"')).stack =~= colon_stack);
            lemma_ws_run_from(q2.push('"'), ws1);
            let q3 = q2.push('"') + ws1;
            lemma_run_push(q3, ':');
            let value_stack = m.stack.update(n - 1, Context::ObjectAwaitingValue);
            assert(run(q3.push(':')).stack =~= value_stack);
            lemma_ws_run_from(q3.push(':'), ws2);
            let q4 = q3.push(':') + ws2;
            lemma_value_run(q4, *value);
            let q5 = q4 + text(*value);
            let base = after_value(run(q4));
            assert(base.stack =~= m.stack.update(n - 1, Context::ObjectAwaitingComma));
            let head = before + seq!['"'] + key + seq!['"'] + ws1 + seq![':'] + ws2 + text(*value)
                + after;
            assert(q5 + after =~= q + head);
            match *rest {
                Members::Nil => {
                    lemma_trailing(q5, base, *value, after, '}');
                    assert(q5 + after + seq!['}'] =~= q + members_text(members) + seq!['}']);
                    assert(pop_ctx(base).stack =~= m.stack.drop_last());
                },
                Members::Cons { .. } => {
                    lemma_trailing(q5, base, *value, after, ',');
                    let q6 = q5 + after + seq![','];
                    assert(run(q6).stack =~= m.stack);
                    lemma_members_run(q6, *rest);
                    assert(q6 + members_text(*rest) + seq!['}'] =~= q + members_text(members)
                        + seq!['}']);
                },
            }
        },
    }
}

/// A character that the scanner passes over outside a string.
pub open spec fn is_inert(c: char) -> bool {
    c != '{' && c != '[' && c != '"' && c != '}' && c != ']'
}

proof fn lemma_inert_scan(q: Seq<char>, cs: Seq<char>, sm: ScanModel)
    requires
        scan(q) == Some(sm),
        !sm.in_string,
        forall|k: int| 0 <= k < cs.len() ==> is_inert(#[trigger] cs[k]),
    ensures
        scan(q + cs) == Some(sm),
    decreases cs.len(),
{
    if cs.len() == 0 {
        assert(q + cs =~= q);
    } else {
        assert(is_inert(cs[0]));
        lemma_scan_push(q, cs[0]);
        assert(q.push(cs[0]) + cs.drop_first() =~= q + cs);
        lemma_inert_scan(q.push(cs[0]), cs.drop_first(), sm);
    }
}

pub proof fn lemma_ws_inert(w: Seq<char>)
    requires
        all_ws(w),
    ensures
        forall|k: int| 0 <= k < w.len() ==> is_inert(#[trigger] w[k]),
{
    assert forall|k: int| 0 <= k < w.len() implies is_inert(#[trigger] w[k]) by {
        assert(is_ws(w[k]));
    }
}

proof fn lemma_digits_inert(w: Seq<char>)
    requires
        all_digits(w),
    ensures
        forall|k: int| 0 <= k < w.len() ==> is_inert(#[trigger] w[k]),
{
    assert forall|k: int| 0 <= k < w.len() implies is_inert(#[trigger] w[k]) by {
        assert(is_digit(w[k]));
    }
}

pub proof fn lemma_ws_scan(q: Seq<char>, w: Seq<char>, sm: ScanModel)
    requires
        scan(q) == Some(sm),
        !sm.in_string,
        all_ws(w),
    ensures
        scan(q + w) == Some(sm),
{
    lemma_ws_inert(w);
    lemma_inert_scan(q, w, sm);
}

proof fn lemma_inert_char_scan(q: Seq<char>, c: char, sm: ScanModel)
    requires
        scan(q) == Some(sm),
        !sm.in_string,
        is_inert(c),
    ensures
        scan(q.push(c)) == Some(sm),
{
    lemma_scan_push(q, c);
}

proof fn lemma_string_scan(q: Seq<char>, body: Seq<char>, sm: ScanModel)
    requires
        scan(q) == Some(sm),
        !sm.in_string,
        !sm.escaped,
        is_string_body(body),
    ensures
        scan(q + seq!['"'] + body + seq!['"']) == Some(sm),
{
    let sm1 = ScanModel { in_string: true, ..sm };
    lemma_scan_push(q, '"');
    assert(q.push('"') =~= q + seq!['"']);
    lemma_string_body_scan(q.push('"'), body, sm1);
    lemma_scan_push(q.push('"') + body, '"');
    assert((q.push('"') + body).push('"') =~= q + seq!['"'] + body + seq!['"']);
}

proof fn lemma_number_scan(
    p: Seq<char>,
    minus: bool,
    whole: Seq<char>,
    frac: Seq<char>,
    mark: Seq<char>,
    exp: Seq<char>,
    sm: ScanModel,
)
    requires
        scan(p) == Some(sm),
        !sm.in_string,
        json_wf(Json::Num { minus, whole, frac, mark, exp }),
    ensures
        scan(p + number_text(minus, whole, frac, mark, exp)) == Some(sm),
{
    let sign: Seq<char> = if minus {
        seq!['-']
    } else {
        Seq::empty()
    };
    let fpart: Seq<char> = if frac.len() > 0 {
        seq!['.'] + frac
    } else {
        Seq::empty()
    };
    let epart: Seq<char> = if exp.len() > 0 {
        mark + exp
    } else {
        Seq::empty()
    };
    let all = sign + whole + fpart + epart;
    assert(all =~= number_text(minus, whole, frac, mark, exp));
    lemma_digits_inert(whole);
    lemma_digits_inert(frac);
    lemma_digits_inert(exp);
    assert forall|k: int| 0 <= k < all.len() implies is_inert(#[trigger] all[k]) by {
        if k < sign.len() {
            assert(all[k] == sign[k]);
        } else if k < sign.len() + whole.len() {
            assert(all[k] == whole[k - sign.len()]);
        } else if k < sign.len() + whole.len() + fpart.len() {
            let j = k - sign.len() - whole.len();
            assert(all[k] == fpart[j]);
            if j > 0 {
                assert(fpart[j] == frac[j - 1]);
            }
        } else {
            let j = k - sign.len() - whole.len() - fpart.len();
            assert(all[k] == epart[j]);
            if j >= mark.len() {
                assert(epart[j] == exp[j - mark.len()]);
            }
        }
    }
    lemma_inert_scan(p, all, sm);
}

proof fn lemma_word_inert(kind: Literal)
    ensures
        forall|k: int| 0 <= k < word(kind).len() ==> is_inert(#[trigger] word(kind)[k]),
{
    let w = word(kind);
    assert forall|k: int| 0 <= k < w.len() implies is_inert(#[trigger] w[k]) by {
        match kind {
            Literal::True => {
                assert(w =~= seq!['t', 'r', 'u', 'e']);
            },
            Literal::False => {
                assert(w =~= seq!['f', 'a', 'l', 's', 'e']);
            },
            Literal::Null => {
                assert(w =~= seq!['n', 'u', 'l', 'l']);
            },
        }
    }
}

/// The scanner ends the text of a value, read outside any string, in the state it began
/// it in.
#[verifier::rlimit(100)]
pub proof fn lemma_value_scan(p: Seq<char>, v: Json, sm: ScanModel)
    requires
        scan(p) == Some(sm),
        !sm.in_string,
        !sm.escaped,
        json_wf(v),
    ensures
        scan(p + text(v)) == Some(sm),
    decreases v,
{
    match v {
        Json::Str { body } => {
            lemma_string_scan(p, body, sm);
            assert(p + seq!['"'] + body + seq!['"'] =~= p + text(v));
        },
        Json::Num { minus, whole, frac, mark, exp } => {
            lemma_number_scan(p, minus, whole, frac, mark, exp, sm);
        },
        Json::Lit { kind } => {
            lemma_word_inert(kind);
            lemma_inert_scan(p, word(kind), sm);
        },
        Json::Arr { blank, items } => {
            let sm1 = ScanModel { closers: sm.closers.push(']'), ..sm };
            lemma_scan_push(p, '[');
            let q = p.push('[');
            let inner = match items {
                Elems::Nil => blank,
                Elems::Cons { .. } => elems_text(items),
            };
            match items {
                Elems::Nil => lemma_ws_scan(q, blank, sm1),
                Elems::Cons { .. } => lemma_elems_scan(q, items, sm1),
            }
            lemma_scan_push(q + inner, ']');
            assert(sm1.closers.drop_last() =~= sm.closers);
            assert((q + inner).push(']') =~= p + text(v));
        },
        Json::Obj { blank, members } => {
            let sm1 = ScanModel { closers: sm.closers.push('}'), ..sm };
            lemma_scan_push(p, '{');
            let q = p.push('{');
            let inner = match members {
                Members::Nil => blank,
                Members::Cons { .. } => members_text(members),
            };
            match members {
                Members::Nil => lemma_ws_scan(q, blank, sm1),
                Members::Cons { .. } => lemma_members_scan(q, members, sm1),
            }
            lemma_scan_push(q + inner, '}');
            assert(sm1.closers.drop_last() =~= sm.closers);
            assert((q + inner).push('}') =~= p + text(v));
        },
    }
}

pub proof fn lemma_elems_scan(q: Seq<char>, items: Elems, sm: ScanModel)
    requires
        scan(q) == Some(sm),
        !sm.in_string,
        !sm.escaped,
        elems_wf(items),
    ensures
        scan(q + elems_text(items)) == Some(sm),
    decreases items,
{
    match items {
        Elems::Nil => {
            assert(q + elems_text(items) =~= q);
        },
        Elems::Cons { before, value, after, rest } => {
            lemma_ws_scan(q, before, sm);
            lemma_value_scan(q + before, *value, sm);
            lemma_ws_scan(q + before + text(*value), after, sm);
            let q1 = q + before + text(*value) + after;
            match *rest {
                Elems::Nil => {
                    assert(q1 =~= q + elems_text(items));
                },
                Elems::Cons { .. } => {
                    lemma_inert_char_scan(q1, ',', sm);
                    lemma_elems_scan(q1.push(','), *rest, sm);
                    assert(q1.push(',') + elems_text(*rest) =~= q + elems_text(items));
                },
            }
        },
    }
}

#[verifier::rlimit(100)]
pub proof fn lemma_members_scan(q: Seq<char>, members: Members, sm: ScanModel)
    requires
        scan(q) == Some(sm),
        !sm.in_string,
        !sm.escaped,
        members_wf(members),
    ensures
        scan(q + members_text(members)) == Some(sm),
    decreases members,
{
    match members {
        Members::Nil => {
            assert(q + members_text(members) =~= q);
        },
        Members::Cons { before, key, ws1, ws2, value, after, rest } => {
            lemma_ws_scan(q, before, sm);
            let q1 = q + before;
            lemma_string_scan(q1, key, sm);
            let q2 = q1 + seq!['"'] + key + seq!['"'];
            lemma_ws_scan(q2, ws1, sm);
            lemma_inert_char_scan(q2 + ws1, ':', sm);
            let q3 = (q2 + ws1).push(':');
            lemma_ws_scan(q3, ws2, sm);
            lemma_value_scan(q3 + ws2, *value, sm);
            lemma_ws_scan(q3 + ws2 + text(*value), after, sm);
            let q4 = q3 + ws2 + text(*value) + after;
            match *rest {
                Members::Nil => {
                    assert(q4 =~= q + members_text(members));
                },
                Members::Cons { .. } => {
                    lemma_inert_char_scan(q4, ',', sm);
                    lemma_members_scan(q4.push(','), *rest, sm);
                    assert(q4.push(',') + members_text(*rest) =~= q + members_text(members));
                },
            }
        },
    }
}

pub proof fn lemma_token_closes_silently(v: Json)
    ensures
        token_of(v) matches Some(t) ==> closer(t) == Seq::<char>::empty(),
{
    if let Json::Lit { kind } = v {
        match kind {
            Literal::True => {},
            Literal::False => {},
            Literal::Null => {},
        }
    }
}

} // verus!
