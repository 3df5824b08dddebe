//! The next password after a given one, and the next that the rules accept.

use vstd::prelude::*;
use vstd::string::*;
use crate::text::chars_of;
use crate::text::lemma_char_range;
use crate::text::string_of;

verus! {

/// The password after `s`: the last character that is below `z` steps to its
/// successor, and every character behind it turns into `a`. Where there is
/// no such character, all turn into `a`.
pub open spec fn bumped(s: Seq<char>) -> Seq<char>
    decreases s.len(),
{
    if s.len() == 0 {
        s
    } else if 'z' > s.last() {
        s.drop_last().push(((s.last() as int) + 1) as char)
    } else {
        bumped(s.drop_last()).push('a')
    }
}

/// The password `times` steps after `s`.
pub open spec fn bumped_times(s: Seq<char>, times: nat) -> Seq<char>
    decreases times,
{
    if times == 0 {
        s
    } else {
        bumped(bumped_times(s, (times - 1) as nat))
    }
}

fn bump(chars: &mut Vec<char>)
    ensures
        final(chars)@ == bumped(old(chars)@),
{
    let ghost s = chars@;
    let mut i: usize = chars.len();
    proof {
        assert(s.take(i as int) =~= s);
    }
    while i > 0
        invariant
            s == old(chars)@,
            i <= chars.len(),
            chars.len() == s.len(),
            forall|j: int| 0 <= j < i ==> chars[j] == s[j],
            bumped(s) == bumped(s.take(i as int)) + chars@.skip(i as int),
        decreases i,
    {
        let c = chars[i - 1];
        let ghost t = s.take(i as int);
        proof {
            lemma_char_range(c);
            assert(t.drop_last() =~= s.take(i - 1));
        }
        if 'z' > c {
            let next = ((c as u32 + 1) as u8) as char;
            chars.set(i - 1, next);
            return ;
        }
        chars.set(i - 1, 'a');
        i -= 1;
    }
}

/// The password after `s`.
pub fn generate_next_password(s: &String) -> (out: String)
    ensures
        out@ == bumped(s@),
{
    let mut chars = chars_of(s.as_str());
    bump(&mut chars);
    string_of(&chars)
}

/// What reading a password from the left has found so far.
pub struct Scan {
    /// A forbidden character has come up.
    pub forbidden: bool,
    /// The length of the straight that is being followed, at most 3.
    pub straight: nat,
    /// The character that the straight has reached.
    pub top: char,
    /// The pairs counted.
    pub pairs: nat,
    /// The character that would make a pair if it came again at once.
    pub pending: Option<char>,
}

/// One of the characters `i`, `o`, `l`.
pub open spec fn is_forbidden(c: char) -> bool {
    c == 'i' || c == 'o' || c == 'l'
}

/// What is found once `c` has been read after `before`. A character that
/// carries a straight on, up to its third, is taken for the straight alone;
/// any other starts a straight anew unless one of three has been found, and
/// closes a pair with the character before it or waits for its like.
pub open spec fn scan_step(before: Scan, c: char) -> Scan {
    if before.forbidden || is_forbidden(c) {
        Scan { forbidden: true, ..before }
    } else if 0 < before.straight < 3 && (c as int) == (before.top as int) + 1 {
        Scan { straight: before.straight + 1, top: c, pending: Some(c), ..before }
    } else {
        let (straight, top) = if before.straight < 3 {
            (1nat, c)
        } else {
            (before.straight, before.top)
        };
        if before.pending == Some(c) {
            Scan { straight, top, pairs: before.pairs + 1, pending: None, ..before }
        } else {
            Scan { straight, top, pending: Some(c), ..before }
        }
    }
}

/// What is found in the first `n` characters of `s`.
pub open spec fn scan(s: Seq<char>, n: nat) -> Scan
    decreases n,
{
    if n == 0 {
        Scan { forbidden: false, straight: 0, top: 'a', pairs: 0, pending: None }
    } else {
        scan_step(scan(s, (n - 1) as nat), s[n - 1])
    }
}

/// The rules accept `s`: no forbidden character, a straight of three, and at
/// least two pairs.
pub open spec fn valid(s: Seq<char>) -> bool {
    let found = scan(s, s.len());
    !found.forbidden && found.straight == 3 && found.pairs >= 2
}

proof fn lemma_forbidden_stays(s: Seq<char>, n: nat, m: nat)
    requires
        n <= m,
        scan(s, n).forbidden,
    ensures
        scan(s, m).forbidden,
    decreases m,
{
    if n < m {
        lemma_forbidden_stays(s, n, (m - 1) as nat);
    }
}

fn follows(top: char, c: char) -> (r: bool)
    ensures
        r == ((c as int) == (top as int) + 1),
{
    proof {
        lemma_char_range(top);
        lemma_char_range(c);
    }
    c as u32 == top as u32 + 1
}

fn valid_chars(chars: &Vec<char>) -> (r: bool)
    ensures
        r == valid(chars@),
{
    let ghost s = chars@;
    let mut straight: usize = 0;
    let mut top: char = 'a';
    let mut pairs: usize = 0;
    let mut pending: Option<char> = None;
    let mut i: usize = 0;
    while i < chars.len()
        invariant
            s == chars@,
            i <= chars.len(),
            pairs <= i,
            straight <= 3,
            scan(s, i as nat) == (Scan {
                forbidden: false,
                straight: straight as nat,
                top,
                pairs: pairs as nat,
                pending,
            }),
        decreases chars.len() - i,
    {
        let c = chars[i];
        if c == 'i' || c == 'o' || c == 'l' {
            proof {
                lemma_forbidden_stays(s, (i + 1) as nat, s.len());
            }
            return false;
        }
        if 0 < straight && straight < 3 && follows(top, c) {
            straight += 1;
            top = c;
            pending = Some(c);
        } else {
            if straight < 3 {
                straight = 1;
                top = c;
            }
            let again = match pending {
                Some(p) => p == c,
                None => false,
            };
            if again {
                pairs += 1;
                pending = None;
            } else {
                pending = Some(c);
            }
        }
        i += 1;
    }
    straight == 3 && pairs >= 2
}

/// Whether the rules accept `s`.
pub fn is_valid(s: &String) -> (r: bool)
    ensures
        r == valid(s@),
{
    let chars = chars_of(s.as_str());
    valid_chars(&chars)
}

/// The first password after `s` that the rules accept, where one comes
/// within `u64::MAX` steps.
pub fn generate_next_valid_password(s: String) -> (r: Option<String>)
    ensures
        match r {
            Some(p) => exists|k: nat|
                {
                    &&& 1 <= k <= u64::MAX
                    &&& p@ == #[trigger] bumped_times(s@, k)
                    &&& valid(p@)
                    &&& forall|j: nat| 1 <= j < k ==> !valid(#[trigger] bumped_times(s@, j))
                },
            None => forall|j: nat| 1 <= j <= u64::MAX ==> !valid(#[trigger] bumped_times(s@, j)),
        },
{
    let mut pass = chars_of(s.as_str());
    let mut steps: u64 = 0;
    while steps < u64::MAX
        invariant
            pass@ == bumped_times(s@, steps as nat),
            forall|j: nat| 1 <= j <= steps ==> !valid(#[trigger] bumped_times(s@, j)),
        decreases u64::MAX - steps,
    {
        bump(&mut pass);
        steps += 1;
        assert(pass@ == bumped_times(s@, steps as nat));
        if valid_chars(&pass) {
            return Some(string_of(&pass));
        }
    }
    None
}

} // verus!
