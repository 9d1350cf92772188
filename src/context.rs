//! The nesting contexts of the completion automaton and the text that closes each of them.
use vstd::prelude::*;

verus! {

/// The three JSON literals.
#[derive(Clone, Copy, Debug, PartialEq, Eq, Structural)]
pub enum Literal {
    True,
    False,
    Null,
}

/// One syntactic nesting level. The innermost level is the last one of a stack.
#[derive(Clone, Copy, Debug, PartialEq, Eq, Structural)]
pub enum Context {
    TopLevel,
    InString,
    InStringEscape,
    /// After `\u`; `digits` hex digits of the escape have been read.
    InStringUnicodeEscape { digits: u8 },
    InNumber,
    NumberNeedsDigit,
    NumberNeedsExponentDigit,
    /// Inside a literal whose first `matched` letters have been read.
    InLiteral { kind: Literal, matched: u8 },
    ArrayAwaitingValue,
    ArrayAwaitingComma,
    ObjectAwaitingKey,
    ObjectAwaitingColon,
    ObjectAwaitingValue,
    ObjectAwaitingComma,
}

/// The full spelling of a literal.
pub open spec fn word(kind: Literal) -> Seq<char> {
    match kind {
        Literal::True => seq!['t', 'r', 'u', 'e'],
        Literal::False => seq!['f', 'a', 'l', 's', 'e'],
        Literal::Null => seq!['n', 'u', 'l', 'l'],
    }
}

/// The letters of a literal that follow its first `matched` ones.
pub open spec fn rest_of_word(kind: Literal, matched: u8) -> Seq<char> {
    if (matched as int) < word(kind).len() {
        word(kind).subrange(matched as int, word(kind).len() as int)
    } else {
        Seq::empty()
    }
}

/// The text that closes one context.
pub open spec fn closer(ctx: Context) -> Seq<char> {
    match ctx {
        Context::InString => seq!['"'],
        Context::NumberNeedsDigit | Context::NumberNeedsExponentDigit => seq!['0'],
        Context::InLiteral { kind, matched } => rest_of_word(kind, matched),
        Context::ArrayAwaitingValue | Context::ArrayAwaitingComma => seq![']'],
        Context::ObjectAwaitingKey
        | Context::ObjectAwaitingColon
        | Context::ObjectAwaitingValue
        | Context::ObjectAwaitingComma => seq!['}'],
        _ => Seq::empty(),
    }
}

/// The text that closes a whole stack, innermost context first.
pub open spec fn closing(stack: Seq<Context>) -> Seq<char>
    decreases stack.len(),
{
    if stack.len() == 0 {
        Seq::empty()
    } else {
        closer(stack.last()) + closing(stack.drop_last())
    }
}

/// The number of letters in a literal.
pub fn word_len(kind: Literal) -> (r: u8)
    ensures
        r as int == word(kind).len(),
{
    match kind {
        Literal::True => 4,
        Literal::False => 5,
        Literal::Null => 4,
    }
}

/// The letter of a literal at position `j`.
pub fn word_char(kind: Literal, j: u8) -> (r: char)
    requires
        (j as int) < word(kind).len(),
    ensures
        r == word(kind)[j as int],
{
    match kind {
        Literal::True => {
            if j == 0 {
                't'
            } else if j == 1 {
                'r'
            } else if j == 2 {
                'u'
            } else {
                'e'
            }
        },
        Literal::False => {
            if j == 0 {
                'f'
            } else if j == 1 {
                'a'
            } else if j == 2 {
                'l'
            } else if j == 3 {
                's'
            } else {
                'e'
            }
        },
        Literal::Null => {
            if j == 0 {
                'n'
            } else if j == 1 {
                'u'
            } else {
                'l'
            }
        },
    }
}

/// Relies on `String::push`, which appends one character.
#[verifier::external_body]
pub(crate) fn push_char(s: &mut String, c: char)
    ensures
        final(s)@ == old(s)@.push(c),
{
    s.push(c);
}

/// Appends the text that closes `ctx`.
pub fn push_closer(out: &mut String, ctx: Context)
    ensures
        final(out)@ == old(out)@ + closer(ctx),
{
    match ctx {
        Context::InString => push_char(out, '"'),
        Context::NumberNeedsDigit | Context::NumberNeedsExponentDigit => push_char(out, '0'),
        Context::InLiteral { kind, matched } => {
            let n = word_len(kind);
            if matched < n {
                let mut j = matched;
                while j < n
                    invariant
                        n as int == word(kind).len(),
                        matched <= j <= n,
                        out@ == old(out)@ + word(kind).subrange(matched as int, j as int),
                    decreases n - j,
                {
                    push_char(out, word_char(kind, j));
                    j = j + 1;
                    assert(out@ =~= old(out)@ + word(kind).subrange(matched as int, j as int));
                }
            }
            assert(out@ =~= old(out)@ + closer(ctx));
        },
        Context::ArrayAwaitingValue | Context::ArrayAwaitingComma => push_char(out, ']'),
        Context::ObjectAwaitingKey
        | Context::ObjectAwaitingColon
        | Context::ObjectAwaitingValue
        | Context::ObjectAwaitingComma => push_char(out, '}'),
        _ => {},
    }
}

} // verus!
