//! The completion automaton: a context stack driven one character at a time, with the
//! rollback points that mark the last place where the text was unambiguous.
use vstd::prelude::*;
use crate::context::{Context, Literal, word, word_len};

verus! {

/// JSON whitespace.
pub open spec fn is_ws(c: char) -> bool {
    c == ' ' || c == '\t' || c == '\n' || c == '\r'
}

pub open spec fn is_digit(c: char) -> bool {
    '0' <= c <= '9'
}

pub open spec fn is_hex(c: char) -> bool {
    ('0' <= c <= '9') || ('a' <= c <= 'f') || ('A' <= c <= 'F')
}

pub open spec fn is_letter(c: char) -> bool {
    ('a' <= c <= 'z') || ('A' <= c <= 'Z')
}

/// A place to roll back to: the offset of a character and the stack depth before it.
pub struct Mark {
    pub offset: nat,
    pub depth: nat,
}

/// The state of the automaton: its context stack and, per reason, the pending rollback point.
pub struct ParseModel {
    pub stack: Seq<Context>,
    /// Pending since a `\` began an escape sequence that has not ended.
    pub escape: Option<Mark>,
    /// Pending since a collection item began that has not yet received its value.
    pub item: Option<Mark>,
}

/// The state before the first character.
pub open spec fn initial_model() -> ParseModel {
    ParseModel { stack: seq![Context::TopLevel], escape: None, item: None }
}

/// The innermost context.
pub open spec fn top(m: ParseModel) -> Context {
    if m.stack.len() == 0 {
        Context::TopLevel
    } else {
        m.stack.last()
    }
}

pub open spec fn push_ctx(m: ParseModel, c: Context) -> ParseModel {
    ParseModel { stack: m.stack.push(c), ..m }
}

pub open spec fn pop_ctx(m: ParseModel) -> ParseModel {
    ParseModel { stack: m.stack.drop_last(), ..m }
}

pub open spec fn replace_ctx(m: ParseModel, c: Context) -> ParseModel {
    ParseModel { stack: m.stack.update(m.stack.len() - 1, c), ..m }
}

/// Records an escape rollback point at offset `i`, unless one is pending.
pub open spec fn mark_escape(m: ParseModel, i: nat) -> ParseModel {
    if m.escape is None {
        ParseModel { escape: Some(Mark { offset: i, depth: m.stack.len() }), ..m }
    } else {
        m
    }
}

/// Records an item rollback point at offset `i`, unless one is pending.
pub open spec fn mark_item(m: ParseModel, i: nat) -> ParseModel {
    if m.item is None {
        ParseModel { item: Some(Mark { offset: i, depth: m.stack.len() }), ..m }
    } else {
        m
    }
}

pub open spec fn clear_escape(m: ParseModel) -> ParseModel {
    ParseModel { escape: None, ..m }
}

pub open spec fn clear_item(m: ParseModel) -> ParseModel {
    ParseModel { item: None, ..m }
}

/// The context that a value opened by `c` starts in, if `c` opens one.
pub open spec fn value_start(c: char) -> Option<Context> {
    if c == '"' {
        Some(Context::InString)
    } else if is_digit(c) {
        Some(Context::InNumber)
    } else if c == '-' {
        Some(Context::NumberNeedsDigit)
    } else if c == 't' {
        Some(Context::InLiteral { kind: Literal::True, matched: 1 })
    } else if c == 'f' {
        Some(Context::InLiteral { kind: Literal::False, matched: 1 })
    } else if c == 'n' {
        Some(Context::InLiteral { kind: Literal::Null, matched: 1 })
    } else if c == '[' {
        Some(Context::ArrayAwaitingValue)
    } else if c == '{' {
        Some(Context::ObjectAwaitingKey)
    } else {
        None
    }
}

/// Starts a value with `c`: pushes its context, or ignores `c` if it opens none.
pub open spec fn start_value(m: ParseModel, c: char) -> ParseModel {
    match value_start(c) {
        Some(ctx) => push_ctx(m, ctx),
        None => m,
    }
}

/// Whether `c` ends the number or literal of context `ctx` without belonging to it.
pub open spec fn ends_token(ctx: Context, c: char) -> bool {
    match ctx {
        Context::InNumber => !(is_digit(c) || c == '.' || c == 'e' || c == 'E'),
        Context::InLiteral { .. } => !is_letter(c),
        _ => false,
    }
}

/// The transition on character `c` at offset `i` for the innermost context.
pub open spec fn advance(m: ParseModel, c: char, i: nat) -> ParseModel {
    match top(m) {
        Context::TopLevel => start_value(m, c),
        Context::InString => {
            if c == '"' {
                pop_ctx(m)
            } else if c == '\\' {
                push_ctx(mark_escape(m, i), Context::InStringEscape)
            } else {
                m
            }
        },
        Context::InStringEscape => {
            if c == 'u' {
                replace_ctx(m, Context::InStringUnicodeEscape { digits: 0 })
            } else {
                clear_escape(pop_ctx(m))
            }
        },
        Context::InStringUnicodeEscape { digits } => {
            if !is_hex(c) {
                m
            } else if digits >= 3 {
                clear_escape(pop_ctx(m))
            } else {
                replace_ctx(m, Context::InStringUnicodeEscape { digits: (digits + 1) as u8 })
            }
        },
        Context::InNumber => {
            if c == '.' {
                replace_ctx(m, Context::NumberNeedsDigit)
            } else if c == 'e' || c == 'E' {
                replace_ctx(m, Context::NumberNeedsExponentDigit)
            } else {
                m
            }
        },
        Context::NumberNeedsDigit => {
            if is_digit(c) {
                replace_ctx(m, Context::InNumber)
            } else {
                m
            }
        },
        Context::NumberNeedsExponentDigit => {
            if c == '+' || c == '-' {
                replace_ctx(m, Context::NumberNeedsDigit)
            } else if is_digit(c) {
                replace_ctx(m, Context::InNumber)
            } else {
                m
            }
        },
        Context::InLiteral { kind, matched } => {
            if (matched as int) < word(kind).len() {
                replace_ctx(m, Context::InLiteral { kind, matched: (matched + 1) as u8 })
            } else {
                m
            }
        },
        Context::ArrayAwaitingValue => {
            if c == ']' {
                pop_ctx(m)
            } else if is_ws(c) {
                m
            } else {
                start_value(replace_ctx(clear_item(m), Context::ArrayAwaitingComma), c)
            }
        },
        Context::ArrayAwaitingComma => {
            if c == ']' {
                pop_ctx(m)
            } else if c == ',' {
                replace_ctx(mark_item(m, i), Context::ArrayAwaitingValue)
            } else {
                m
            }
        },
        Context::ObjectAwaitingKey => {
            if c == '}' {
                pop_ctx(m)
            } else if c == '"' {
                push_ctx(
                    replace_ctx(mark_item(m, i), Context::ObjectAwaitingColon),
                    Context::InString,
                )
            } else {
                m
            }
        },
        Context::ObjectAwaitingColon => {
            if c == ':' {
                replace_ctx(m, Context::ObjectAwaitingValue)
            } else {
                m
            }
        },
        Context::ObjectAwaitingValue => {
            if is_ws(c) {
                m
            } else {
                start_value(replace_ctx(clear_item(m), Context::ObjectAwaitingComma), c)
            }
        },
        Context::ObjectAwaitingComma => {
            if c == '}' {
                pop_ctx(m)
            } else if c == ',' {
                replace_ctx(mark_item(m, i), Context::ObjectAwaitingKey)
            } else {
                m
            }
        },
    }
}

/// One step on character `c` at offset `i`: a character that ends a number or a literal
/// closes it and is then read by the enclosing context.
pub open spec fn step(m: ParseModel, c: char, i: nat) -> ParseModel {
    if ends_token(top(m), c) {
        advance(pop_ctx(m), c, i)
    } else {
        advance(m, c, i)
    }
}

/// The state after reading all of `s`.
pub open spec fn run(s: Seq<char>) -> ParseModel
    decreases s.len(),
{
    if s.len() == 0 {
        initial_model()
    } else {
        step(run(s.drop_last()), s.last(), (s.len() - 1) as nat)
    }
}

/// A stack that starts with the top level, holds it nowhere else, and is never empty.
pub open spec fn stack_wf(stack: Seq<Context>) -> bool {
    &&& stack.len() >= 1
    &&& stack[0] == Context::TopLevel
    &&& forall|k: int| 0 < k < stack.len() ==> stack[k] != Context::TopLevel
}

/// Pending rollback points lie within the text read so far and within the stack's bounds.
pub open spec fn mark_wf(o: Option<Mark>, read: nat) -> bool {
    match o {
        Some(p) => p.offset < read && p.depth >= 1,
        None => true,
    }
}

pub open spec fn model_wf(m: ParseModel, read: nat) -> bool {
    &&& stack_wf(m.stack)
    &&& mark_wf(m.escape, read)
    &&& mark_wf(m.item, read)
}

proof fn lemma_mark_wf_grows(o: Option<Mark>, read: nat)
    requires
        mark_wf(o, read),
    ensures
        mark_wf(o, read + 1),
{
}

/// A rollback point of the executable automaton.
#[derive(Clone, Copy, Debug, PartialEq, Eq, Structural)]
pub struct RespawnPoint {
    pub offset: usize,
    pub depth: usize,
}

pub open spec fn mark_of(o: Option<RespawnPoint>) -> Option<Mark> {
    match o {
        Some(p) => Some(Mark { offset: p.offset as nat, depth: p.depth as nat }),
        None => None,
    }
}

/// The executable state of the automaton during one call.
pub struct ParseState {
    pub stack: Vec<Context>,
    pub escape: Option<RespawnPoint>,
    pub item: Option<RespawnPoint>,
}

impl View for ParseState {
    type V = ParseModel;

    open spec fn view(&self) -> ParseModel {
        ParseModel { stack: self.stack@, escape: mark_of(self.escape), item: mark_of(self.item) }
    }
}

pub fn is_ws_char(c: char) -> (r: bool)
    ensures
        r == is_ws(c),
{
    c == ' ' || c == '\t' || c == '\n' || c == '\r'
}

pub fn is_digit_char(c: char) -> (r: bool)
    ensures
        r == is_digit(c),
{
    '0' <= c && c <= '9'
}

pub fn is_hex_char(c: char) -> (r: bool)
    ensures
        r == is_hex(c),
{
    ('0' <= c && c <= '9') || ('a' <= c && c <= 'f') || ('A' <= c && c <= 'F')
}

pub fn is_letter_char(c: char) -> (r: bool)
    ensures
        r == is_letter(c),
{
    ('a' <= c && c <= 'z') || ('A' <= c && c <= 'Z')
}

impl ParseState {
    /// A fresh state: the top level alone, nothing pending.
    pub fn new() -> (r: ParseState)
        ensures
            r@ == initial_model(),
            model_wf(r@, 0),
    {
        let r = ParseState { stack: vec![Context::TopLevel], escape: None, item: None };
        assert(r@.stack =~= initial_model().stack);
        r
    }

    /// The innermost context.
    pub fn top(&self) -> (r: Context)
        requires
            stack_wf(self.stack@),
        ensures
            r == top(self@),
    {
        self.stack[self.stack.len() - 1]
    }

    fn push(&mut self, c: Context)
        requires
            stack_wf(old(self).stack@),
            c != Context::TopLevel,
        ensures
            final(self)@ == push_ctx(old(self)@, c),
            stack_wf(final(self).stack@),
    {
        self.stack.push(c);
        assert(self@ == push_ctx(old(self)@, c));
    }

    fn pop(&mut self)
        requires
            stack_wf(old(self).stack@),
            old(self).stack@.len() >= 2,
        ensures
            final(self)@ == pop_ctx(old(self)@),
            stack_wf(final(self).stack@),
    {
        self.stack.pop();
        assert(self.stack@ =~= old(self).stack@.drop_last());
    }

    fn replace(&mut self, c: Context)
        requires
            stack_wf(old(self).stack@),
            old(self).stack@.len() >= 2,
            c != Context::TopLevel,
        ensures
            final(self)@ == replace_ctx(old(self)@, c),
            stack_wf(final(self).stack@),
            final(self).stack@.len() == old(self).stack@.len(),
    {
        let n = self.stack.len();
        self.stack.set(n - 1, c);
        assert(self.stack@ =~= old(self).stack@.update(n - 1, c));
    }

    fn set_escape(&mut self, i: usize)
        ensures
            final(self)@ == mark_escape(old(self)@, i as nat),
            final(self).stack == old(self).stack,
    {
        if self.escape.is_none() {
            self.escape = Some(RespawnPoint { offset: i, depth: self.stack.len() });
        }
    }

    fn set_item(&mut self, i: usize)
        ensures
            final(self)@ == mark_item(old(self)@, i as nat),
            final(self).stack == old(self).stack,
    {
        if self.item.is_none() {
            self.item = Some(RespawnPoint { offset: i, depth: self.stack.len() });
        }
    }

    fn start_value(&mut self, c: char)
        requires
            stack_wf(old(self).stack@),
        ensures
            final(self)@ == start_value(old(self)@, c),
            stack_wf(final(self).stack@),
            final(self).escape == old(self).escape,
            final(self).item == old(self).item,
    {
        if c == '"' {
            self.push(Context::InString);
        } else if is_digit_char(c) {
            self.push(Context::InNumber);
        } else if c == '-' {
            self.push(Context::NumberNeedsDigit);
        } else if c == 't' {
            self.push(Context::InLiteral { kind: Literal::True, matched: 1 });
        } else if c == 'f' {
            self.push(Context::InLiteral { kind: Literal::False, matched: 1 });
        } else if c == 'n' {
            self.push(Context::InLiteral { kind: Literal::Null, matched: 1 });
        } else if c == '[' {
            self.push(Context::ArrayAwaitingValue);
        } else if c == '{' {
            self.push(Context::ObjectAwaitingKey);
        }
    }

    /// The transition on `c` at offset `i` for the innermost context.
    fn advance(&mut self, c: char, i: usize)
        requires
            model_wf(old(self)@, i as nat),
        ensures
            final(self)@ == advance(old(self)@, c, i as nat),
            model_wf(final(self)@, (i + 1) as nat),
    {
        let ghost m = self@;
        proof {
            lemma_mark_wf_grows(m.escape, i as nat);
            lemma_mark_wf_grows(m.item, i as nat);
        }
        match self.top() {
            Context::TopLevel => self.start_value(c),
            Context::InString => {
                if c == '"' {
                    self.pop();
                } else if c == '\\' {
                    self.set_escape(i);
                    self.push(Context::InStringEscape);
                }
            },
            Context::InStringEscape => {
                if c == 'u' {
                    self.replace(Context::InStringUnicodeEscape { digits: 0 });
                } else {
                    self.pop();
                    self.escape = None;
                }
            },
            Context::InStringUnicodeEscape { digits } => {
                if is_hex_char(c) {
                    if digits >= 3 {
                        self.pop();
                        self.escape = None;
                    } else {
                        self.replace(Context::InStringUnicodeEscape { digits: digits + 1 });
                    }
                }
            },
            Context::InNumber => {
                if c == '.' {
                    self.replace(Context::NumberNeedsDigit);
                } else if c == 'e' || c == 'E' {
                    self.replace(Context::NumberNeedsExponentDigit);
                }
            },
            Context::NumberNeedsDigit => {
                if is_digit_char(c) {
                    self.replace(Context::InNumber);
                }
            },
            Context::NumberNeedsExponentDigit => {
                if c == '+' || c == '-' {
                    self.replace(Context::NumberNeedsDigit);
                } else if is_digit_char(c) {
                    self.replace(Context::InNumber);
                }
            },
            Context::InLiteral { kind, matched } => {
                if matched < word_len(kind) {
                    self.replace(Context::InLiteral { kind, matched: matched + 1 });
                }
            },
            Context::ArrayAwaitingValue => {
                if c == ']' {
                    self.pop();
                } else if !is_ws_char(c) {
                    self.item = None;
                    self.replace(Context::ArrayAwaitingComma);
                    self.start_value(c);
                }
            },
            Context::ArrayAwaitingComma => {
                if c == ']' {
                    self.pop();
                } else if c == ',' {
                    self.set_item(i);
                    self.replace(Context::ArrayAwaitingValue);
                }
            },
            Context::ObjectAwaitingKey => {
                if c == '}' {
                    self.pop();
                } else if c == '"' {
                    self.set_item(i);
                    self.replace(Context::ObjectAwaitingColon);
                    self.push(Context::InString);
                }
            },
            Context::ObjectAwaitingColon => {
                if c == ':' {
                    self.replace(Context::ObjectAwaitingValue);
                }
            },
            Context::ObjectAwaitingValue => {
                if !is_ws_char(c) {
                    self.item = None;
                    self.replace(Context::ObjectAwaitingComma);
                    self.start_value(c);
                }
            },
            Context::ObjectAwaitingComma => {
                if c == '}' {
                    self.pop();
                } else if c == ',' {
                    self.set_item(i);
                    self.replace(Context::ObjectAwaitingKey);
                }
            },
        }
    }

    /// Reads character `c` at offset `i`.
    pub fn step(&mut self, c: char, i: usize)
        requires
            model_wf(old(self)@, i as nat),
        ensures
            final(self)@ == step(old(self)@, c, i as nat),
            model_wf(final(self)@, (i + 1) as nat),
    {
        let ends = match self.top() {
            Context::InNumber => !(is_digit_char(c) || c == '.' || c == 'e' || c == 'E'),
            Context::InLiteral { .. } => !is_letter_char(c),
            _ => false,
        };
        if ends {
            self.pop();
        }
        self.advance(c, i);
    }
}

} // verus!
