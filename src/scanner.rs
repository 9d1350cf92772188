//! The validity scanner: a single pass that tracks only bracket and string balance, reports
//! a closing delimiter that matches nothing, and otherwise suggests the text that closes
//! what is still open.
use vstd::prelude::*;
use crate::context::push_char;

verus! {

/// The text holds a closing delimiter that does not match the innermost open one, or a
/// closing delimiter with nothing open.
#[derive(Clone, Copy, Debug, PartialEq, Eq, Structural)]
pub struct MalformedJsonError;

impl MalformedJsonError {
    /// A sentence describing the error.
    pub fn message(&self) -> (r: String)
        ensures
            r@ == "The input JSON string is malformed."@,
    {
        String::from_str("The input JSON string is malformed.")
    }
}

/// The scanner's state: the closing delimiters expected, innermost last, and whether it is
/// inside a string, just after a backslash there.
pub struct ScanModel {
    pub closers: Seq<char>,
    pub in_string: bool,
    pub escaped: bool,
}

/// The scanner's transition on `c`; `None` once the text is malformed.
pub open spec fn scan_step(m: Option<ScanModel>, c: char) -> Option<ScanModel> {
    match m {
        None => None,
        Some(m) => if m.in_string {
            if m.escaped {
                Some(ScanModel { escaped: false, ..m })
            } else if c == '\\' {
                Some(ScanModel { escaped: true, ..m })
            } else if c == '"' {
                Some(ScanModel { in_string: false, ..m })
            } else {
                Some(m)
            }
        } else if c == '{' {
            Some(ScanModel { closers: m.closers.push('}'), ..m })
        } else if c == '[' {
            Some(ScanModel { closers: m.closers.push(']'), ..m })
        } else if c == '"' {
            Some(ScanModel { in_string: true, ..m })
        } else if c == '}' || c == ']' {
            if m.closers.len() > 0 && m.closers.last() == c {
                Some(ScanModel { closers: m.closers.drop_last(), ..m })
            } else {
                None
            }
        } else {
            Some(m)
        },
    }
}

/// The scanner's state after all of `s`; `None` if `s` is malformed.
pub open spec fn scan(s: Seq<char>) -> Option<ScanModel>
    decreases s.len(),
{
    if s.len() == 0 {
        Some(ScanModel { closers: Seq::empty(), in_string: false, escaped: false })
    } else {
        scan_step(scan(s.drop_last()), s.last())
    }
}

/// Whether `s` holds a closing delimiter that matches nothing open.
pub open spec fn is_malformed(s: Seq<char>) -> bool {
    scan(s) is None
}

/// The closing text that the scanner suggests: a quote if a string is open, then the
/// expected closers, innermost first.
pub open spec fn suggested_close(m: ScanModel) -> Seq<char> {
    (if m.in_string {
        seq!['"']
    } else {
        Seq::empty()
    }) + m.closers.reverse()
}

proof fn lemma_scan_extend(s: Seq<char>, i: int)
    requires
        0 <= i < s.len(),
    ensures
        scan(s.take(i + 1)) == scan_step(scan(s.take(i)), s[i]),
{
    assert(s.take(i + 1).drop_last() =~= s.take(i));
}

/// A malformed prefix makes the whole text malformed.
pub proof fn lemma_malformed_prefix(s: Seq<char>, i: int)
    requires
        0 <= i <= s.len(),
        is_malformed(s.take(i)),
    ensures
        is_malformed(s),
    decreases s.len() - i,
{
    if i == s.len() {
        assert(s.take(i) =~= s);
    } else {
        lemma_scan_extend(s, i);
        lemma_malformed_prefix(s, i + 1);
    }
}

/// Checks `input` for a closing delimiter that matches nothing open; if there is none,
/// returns the text that closes its open strings, arrays and objects.
pub fn get_closing_string_for_partial_json(input: &str) -> (r: Result<String, MalformedJsonError>)
    ensures
        is_malformed(input@) <==> r is Err,
        r matches Ok(c) ==> c@ == suggested_close(scan(input@)->Some_0),
{
    let mut stack: Vec<char> = Vec::new();
    let mut in_string = false;
    let mut escape = false;
    let mut i: usize = 0;
    let n = input.unicode_len();
    assert(input@.take(0) =~= Seq::<char>::empty());
    for c in it: input.chars()
        invariant
            i == it.index(),
            it.seq() == input@,
            n == input@.len(),
            scan(input@.take(i as int)) == Some(
                ScanModel { closers: stack@, in_string, escaped: escape },
            ),
    {
        proof {
            lemma_scan_extend(input@, i as int);
        }
        if in_string {
            if escape {
                escape = false;
            } else if c == '\\' {
                escape = true;
            } else if c == '"' {
                in_string = false;
            }
        } else if c == '{' {
            stack.push('}');
        } else if c == '[' {
            stack.push(']');
        } else if c == '"' {
            in_string = true;
        } else if c == '}' || c == ']' {
            if stack.len() == 0 || stack[stack.len() - 1] != c {
                proof {
                    lemma_malformed_prefix(input@, i as int + 1);
                }
                return Err(MalformedJsonError);
            }
            stack.pop();
            assert(stack@ =~= scan(input@.take(i as int))->Some_0.closers.drop_last());
        }
        i = i + 1;
    }
    assert(input@.take(n as int) =~= input@);
    let mut out = String::new();
    if in_string {
        push_char(&mut out, '"');
    }
    let ghost head = out@;
    let mut j = stack.len();
    while j > 0
        invariant
            j <= stack@.len(),
            out@ == head + stack@.reverse().take(stack@.len() - j),
        decreases j,
    {
        push_char(&mut out, stack[j - 1]);
        j = j - 1;
        assert(out@ =~= head + stack@.reverse().take(stack@.len() - j));
    }
    assert(stack@.reverse().take(stack@.len() as int) =~= stack@.reverse());
    assert(out@ =~= suggested_close(scan(input@)->Some_0));
    Ok(out)
}

} // verus!
