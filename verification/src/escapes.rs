//! String literals with escapes: how many characters one stands for, and how
//! to write one down as a literal again.

use vstd::prelude::*;
use vstd::string::*;
use crate::text::chars_of;
use crate::text::parse_error;
use crate::text::string_of;
use crate::text::ParseError;

verus! {

/// How many characters the piece that starts at place `i` takes up: a
/// backslash takes the character after it with it, and with an `x` the two
/// after that, as far as they are there.
pub open spec fn piece_len(s: Seq<char>, i: int) -> int {
    if s[i] != '\\' {
        1
    } else if i + 1 >= s.len() {
        1
    } else if s[i + 1] != 'x' {
        2
    } else if i + 2 >= s.len() {
        2
    } else if i + 3 >= s.len() {
        3
    } else {
        4
    }
}

/// How many characters the piece that starts at place `i` stands for: one
/// where it is a plain character, a backslash at the very end, or a whole
/// escape `\\`, `\"` or `\x` with two characters; else as many as it takes up.
pub open spec fn piece_count(s: Seq<char>, i: int) -> nat {
    if s[i] != '\\' {
        1
    } else if i + 1 >= s.len() {
        1
    } else if s[i + 1] == '\\' || s[i + 1] == '"' {
        1
    } else if s[i + 1] != 'x' {
        2
    } else if i + 2 >= s.len() {
        2
    } else if i + 3 >= s.len() {
        3
    } else {
        1
    }
}

/// How many characters the pieces from place `i` on stand for; nothing where
/// a piece starts with a double quote.
pub open spec fn memory_count(s: Seq<char>, i: int) -> Option<nat>
    decreases s.len() - i,
{
    if i < 0 || i >= s.len() {
        Some(0)
    } else if s[i] == '"' {
        None
    } else {
        match memory_count(s, i + piece_len(s, i)) {
            Some(rest) => Some(piece_count(s, i) + rest),
            None => None,
        }
    }
}

/// `s` starts and ends with a double quote.
pub open spec fn quoted(s: Seq<char>) -> bool {
    s.len() >= 1 && s.first() == '"' && s.last() == '"'
}

/// What is between the first and the last character of `s`.
pub open spec fn inside(s: Seq<char>) -> Seq<char> {
    s.subrange(1, s.len() - 1)
}

/// The number of characters that the literal `s` stands for. The literal
/// must stand between double quotes and hold no double quote that no
/// backslash comes before.
pub fn count_characters_in_memory(s: &str) -> (r: Result<usize, ParseError>)
    requires
        !(s@.len() == 1 && s@[0] == '"'),
    ensures
        match r {
            Ok(n) => quoted(s@) && memory_count(inside(s@), 0) == Some(n as nat),
            Err(e) => if quoted(s@) {
                memory_count(inside(s@), 0) is None && e.message@
                    == "got error: \"found multiple double quote\" for string: \""@ + s@ + "\""@
            } else {
                e.message@ == "string: \""@ + s@ + "\" is not quoted by double quote"@
            },
        },
{
    let chars = chars_of(s);
    let n = chars.len();
    if n == 0 || chars[0] != '"' || chars[n - 1] != '"' {
        return Err(parse_error("string: \"", s, "\" is not quoted by double quote"));
    }
    let ghost inner = inside(s@);
    let end = n - 1;
    let mut count: usize = 0;
    let mut i: usize = 1;
    while i < end
        invariant
            chars@ == s@,
            quoted(s@),
            n == chars.len(),
            end == n - 1,
            inner == inside(s@),
            1 <= i <= end,
            count <= i,
            memory_count(inner, 0) == match memory_count(inner, i - 1) {
                Some(rest) => Some(count as nat + rest),
                None => None,
            },
        decreases end - i,
    {
        let c = chars[i];
        if c == '"' {
            return Err(
                parse_error(
                    "got error: \"found multiple double quote\" for string: \"",
                    s,
                    "\"",
                ),
            );
        }
        let mut taken: usize = 1;
        let mut counted: usize = 1;
        if c == '\\' && i + 1 < end {
            let next = chars[i + 1];
            if next == '\\' || next == '"' {
                taken = 2;
            } else if next != 'x' {
                taken = 2;
                counted = 2;
            } else if i + 2 >= end {
                taken = 2;
                counted = 2;
            } else if i + 3 >= end {
                taken = 3;
                counted = 3;
            } else {
                taken = 4;
            }
        }
        count += counted;
        i += taken;
    }
    Ok(count)
}

/// The text `s` with a backslash before every double quote and backslash.
pub open spec fn escaped(s: Seq<char>) -> Seq<char>
    decreases s.len(),
{
    if s.len() == 0 {
        s
    } else if s.last() == '"' || s.last() == '\\' {
        escaped(s.drop_last()).push('\\').push(s.last())
    } else {
        escaped(s.drop_last()).push(s.last())
    }
}

/// The literal that stands for `s`: its characters between double quotes,
/// with a backslash before every double quote and backslash.
pub fn encode(s: &str) -> (out: String)
    ensures
        out@ == seq!['"'] + escaped(s@) + seq!['"'],
{
    let chars = chars_of(s);
    let mut out: Vec<char> = Vec::new();
    out.push('"');
    let mut i: usize = 0;
    while i < chars.len()
        invariant
            i <= chars.len(),
            out@ == seq!['"'] + escaped(chars@.take(i as int)),
        decreases chars.len() - i,
    {
        let c = chars[i];
        proof {
            assert(chars@.take(i + 1).drop_last() =~= chars@.take(i as int));
        }
        if c == '"' || c == '\\' {
            out.push('\\');
        }
        out.push(c);
        i += 1;
    }
    assert(chars@.take(chars.len() as int) =~= chars@);
    out.push('"');
    string_of(&out)
}

} // verus!
