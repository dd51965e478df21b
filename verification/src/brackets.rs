//! Repair of glosses that close a bracket they never opened.

use vstd::prelude::*;
use crate::text::{chars_of, push_char};

verus! {

/// Whether `c` opens a bracket.
pub open spec fn is_opener(c: char) -> bool {
    c == '(' || c == '[' || c == '{'
}

/// The bracket that `c` closes, if it closes one.
pub open spec fn opener_of(c: char) -> Option<char> {
    if c == ')' {
        Some('(')
    } else if c == ']' {
        Some('[')
    } else if c == '}' {
        Some('{')
    } else {
        None
    }
}

/// The first bracket character of `s`, opening or closing.
pub open spec fn first_bracket(s: Seq<char>) -> Option<char>
    decreases s.len(),
{
    if s.len() == 0 {
        None
    } else if is_opener(s[0]) || opener_of(s[0]) is Some {
        Some(s[0])
    } else {
        first_bracket(s.drop_first())
    }
}

/// `s`, with the matching opener put in front where its first bracket
/// character closes a bracket.
pub open spec fn unopened_solved(s: Seq<char>) -> Seq<char> {
    match first_bracket(s) {
        Some(c) => match opener_of(c) {
            Some(open) => seq![open] + s,
            None => s,
        },
        None => s,
    }
}

/// The bracket that `c` closes, if it closes one.
fn closing_opener(c: char) -> (r: Option<char>)
    ensures
        r == opener_of(c),
{
    if c == ')' {
        Some('(')
    } else if c == ']' {
        Some('[')
    } else if c == '}' {
        Some('{')
    } else {
        None
    }
}

/// Puts the matching opener in front of a text whose first bracket character
/// closes a bracket; any other text comes back unchanged.
pub fn solve_unopened_brackets(text: String) -> (r: String)
    ensures
        r@ == unopened_solved(text@),
{
    let chars = chars_of(text.as_str());
    let n = chars.len();
    let mut i: usize = 0;
    assert(chars@.skip(0) =~= chars@);
    while i < n
        invariant
            i <= n == chars.len(),
            chars@ == text@,
            first_bracket(chars@) == first_bracket(chars@.skip(i as int)),
        decreases n - i,
    {
        let c = chars[i];
        assert(chars@.skip(i as int)[0] == c);
        assert(chars@.skip(i as int).drop_first() =~= chars@.skip(i as int + 1));
        if c == '(' || c == '[' || c == '{' {
            return text;
        }
        match closing_opener(c) {
            Some(open) => {
                let mut r = String::new();
                push_char(&mut r, open);
                let mut k: usize = 0;
                while k < n
                    invariant
                        k <= n == chars.len(),
                        r@ == seq![open] + chars@.take(k as int),
                    decreases n - k,
                {
                    push_char(&mut r, chars[k]);
                    k += 1;
                    assert(seq![open] + chars@.take(k as int) =~= (seq![open] + chars@.take(
                        k as int - 1,
                    )).push(chars@[k as int - 1]));
                }
                assert(chars@.take(n as int) =~= chars@);
                return r;
            },
            None => {},
        }
        i += 1;
    }
    text
}

/// Repairing never removes a character: the text is what the result ends in,
/// and at most one character stands before it.
pub proof fn lemma_solve_keeps_text(s: Seq<char>)
    ensures
        s.len() <= unopened_solved(s).len() <= s.len() + 1,
        unopened_solved(s).skip(unopened_solved(s).len() - s.len()) == s,
{
    let r = unopened_solved(s);
    assert(r.skip(r.len() - s.len()) =~= s);
}

/// Repairing a repaired text changes nothing.
pub proof fn lemma_solve_idempotent(s: Seq<char>)
    ensures
        unopened_solved(unopened_solved(s)) == unopened_solved(s),
{
    match first_bracket(s) {
        Some(c) => match opener_of(c) {
            Some(open) => {
                let r = seq![open] + s;
                assert(r[0] == open);
                assert(is_opener(open));
                assert(first_bracket(r) == Some(open));
            },
            None => {},
        },
        None => {},
    }
}

} // verus!
