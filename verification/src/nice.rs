//! Telling nice strings from naughty ones, by two sets of rules.

use vstd::prelude::*;
use vstd::string::*;
use crate::text::chars_of;

verus! {

/// One of the five vowels.
pub open spec fn is_vowel(c: char) -> bool {
    c == 'a' || c == 'e' || c == 'i' || c == 'o' || c == 'u'
}

/// The number of vowels among the first `n` characters.
pub open spec fn vowels(s: Seq<char>, n: nat) -> nat
    decreases n,
{
    if n == 0 {
        0
    } else {
        vowels(s, (n - 1) as nat) + if is_vowel(s[n - 1]) {
            1nat
        } else {
            0nat
        }
    }
}

/// One of the pairs `ab`, `cd`, `pq`, `xy`.
pub open spec fn is_bad_pair(a: char, b: char) -> bool {
    (a == 'a' && b == 'b') || (a == 'c' && b == 'd') || (a == 'p' && b == 'q') || (a == 'x' && b
        == 'y')
}

/// A bad pair stands somewhere in `s`.
pub open spec fn has_bad_pair(s: Seq<char>) -> bool {
    exists|i: int| 0 <= i && i + 1 < s.len() && is_bad_pair(#[trigger] s[i], s[i + 1])
}

/// A character stands twice in a row somewhere in `s`.
pub open spec fn has_double(s: Seq<char>) -> bool {
    exists|i: int| 0 <= i && i + 1 < s.len() && #[trigger] s[i] == s[i + 1]
}

/// Nice by the first rules: at least three vowels, no bad pair, and some
/// character twice in a row.
pub open spec fn nice(s: Seq<char>) -> bool {
    vowels(s, s.len()) >= 3 && !has_bad_pair(s) && has_double(s)
}

fn vowel(c: char) -> (r: bool)
    ensures
        r == is_vowel(c),
{
    c == 'a' || c == 'e' || c == 'i' || c == 'o' || c == 'u'
}

fn bad_pair(a: char, b: char) -> (r: bool)
    ensures
        r == is_bad_pair(a, b),
{
    (a == 'a' && b == 'b') || (a == 'c' && b == 'd') || (a == 'p' && b == 'q') || (a == 'x' && b
        == 'y')
}

/// Whether `input` is nice by the first rules.
pub fn check_nice_string(input: &str) -> (r: bool)
    ensures
        r == nice(input@),
{
    let chars = chars_of(input);
    let mut count: usize = 0;
    let mut bad = false;
    let mut double = false;
    let mut i: usize = 0;
    while i < chars.len()
        invariant
            i <= chars.len(),
            count == vowels(chars@, i as nat),
            count <= i,
            bad == (exists|j: int|
                0 <= j && j + 1 <= i && j + 1 < chars.len() && is_bad_pair(
                    #[trigger] chars[j],
                    chars[j + 1],
                )),
            double == (exists|j: int|
                0 <= j && j + 1 <= i && j + 1 < chars.len() && #[trigger] chars[j] == chars[j
                    + 1]),
        decreases chars.len() - i,
    {
        if vowel(chars[i]) {
            count += 1;
        }
        if i + 1 < chars.len() {
            if bad_pair(chars[i], chars[i + 1]) {
                bad = true;
            }
            if chars[i] == chars[i + 1] {
                double = true;
            }
        }
        i += 1;
    }
    count >= 3 && !bad && double
}

/// A character stands again two places on somewhere in `s`, with any one
/// between.
pub open spec fn has_repeat(s: Seq<char>) -> bool {
    exists|i: int| 0 <= i && i + 2 < s.len() && #[trigger] s[i] == s[i + 2]
}

/// Whether a character stands again two places on.
pub fn has_repeat_char(input: &str) -> (r: bool)
    ensures
        r == has_repeat(input@),
{
    let chars = chars_of(input);
    let limit: usize = if chars.len() >= 2 {
        chars.len() - 2
    } else {
        0
    };
    let mut i: usize = 0;
    while i < limit
        invariant
            chars@ == input@,
            limit + 2 == chars.len() || (limit == 0 && chars.len() < 2),
            forall|j: int| 0 <= j < i && j + 2 < chars.len() ==> #[trigger] chars[j] != chars[j + 2],
        decreases limit - i,
    {
        if chars[i] == chars[i + 2] {
            return true;
        }
        i += 1;
    }
    false
}

/// The two characters at `i` stand again at `j`.
pub open spec fn same_pair(s: Seq<char>, i: int, j: int) -> bool {
    s[i] == s[j] && s[i + 1] == s[j + 1]
}

/// Some two characters in a row stand again further on, the two pairs sharing
/// no place.
pub open spec fn has_pair_twice(s: Seq<char>) -> bool {
    exists|i: int, j: int| 0 <= i && i + 2 <= j && j + 1 < s.len() && #[trigger] same_pair(s, i, j)
}

/// Whether some two characters in a row stand again further on without
/// overlap.
pub fn repeat_without_overlap(input: &str) -> (r: bool)
    requires
        input.is_ascii(),
        input@.len() >= 3,
    ensures
        r == has_pair_twice(input@),
{
    let chars = chars_of(input);
    let n = chars.len();
    let mut i: usize = 0;
    while i < n - 3
        invariant
            chars@ == input@,
            n == chars.len(),
            n >= 3,
            i <= n - 3,
            forall|a: int, b: int|
                0 <= a < i && a + 2 <= b && b + 1 < n ==> !#[trigger] same_pair(chars@, a, b),
        decreases n - i,
    {
        let mut j: usize = i + 2;
        while j < n - 1
            invariant
                chars@ == input@,
                n == chars.len(),
                i + 3 < n,
                i + 2 <= j,
                j <= n,
                forall|a: int, b: int|
                    0 <= a < i && a + 2 <= b && b + 1 < n ==> !#[trigger] same_pair(chars@, a, b),
                forall|b: int| i + 2 <= b < j && b + 1 < n ==> !#[trigger] same_pair(chars@, i as int, b),
            decreases n - j,
        {
            if chars[i] == chars[j] && chars[i + 1] == chars[j + 1] {
                assert(same_pair(chars@, i as int, j as int));
                return true;
            }
            j += 1;
        }
        i += 1;
    }
    false
}

/// Nice by the second rules: a character stands again two places on, and some
/// two characters in a row stand again without overlap.
pub fn check_new_nice_string(input: &str) -> (r: bool)
    requires
        input.is_ascii(),
    ensures
        r == (has_repeat(input@) && has_pair_twice(input@)),
{
    if has_repeat_char(input) {
        return repeat_without_overlap(input);
    }
    false
}

} // verus!
