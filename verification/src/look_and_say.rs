//! Look-and-say: reading a string aloud run by run, so that `111221` becomes
//! three ones, two twos, one one: `312211`.

use vstd::prelude::*;
use vstd::string::*;
use crate::text::chars_of;
use crate::text::decimal;
use crate::text::push_decimal;
use crate::text::string_of;

verus! {

/// The length of the run of equal characters that `s` ends with.
pub open spec fn last_run(s: Seq<char>) -> nat
    decreases s.len(),
{
    if s.len() <= 1 {
        s.len()
    } else if s[s.len() - 2] == s[s.len() - 1] {
        last_run(s.drop_last()) + 1
    } else {
        1
    }
}

/// A string that is not empty ends with a run of at least one character.
pub proof fn lemma_last_run_range(s: Seq<char>)
    requires
        s.len() > 0,
    ensures
        1 <= last_run(s) <= s.len(),
    decreases s.len(),
{
    if s.len() > 1 {
        lemma_last_run_range(s.drop_last());
    }
}

/// What `s` reads as: for each run of equal characters, from the first run to
/// the last, the length of the run in base ten and then the character.
pub open spec fn said(s: Seq<char>) -> Seq<char>
    decreases s.len(),
{
    if s.len() == 0 {
        Seq::empty()
    } else {
        proof {
            lemma_last_run_range(s);
        }
        said(s.take(s.len() - last_run(s))) + decimal(last_run(s)) + seq![s.last()]
    }
}

/// What `s` reads as after reading aloud `times` times over.
pub open spec fn said_times(s: Seq<char>, times: nat) -> Seq<char>
    decreases times,
{
    if times == 0 {
        s
    } else {
        said(said_times(s, (times - 1) as nat))
    }
}

fn say(chars: &Vec<char>) -> (out: Vec<char>)
    ensures
        out@ == said(chars@),
{
    let ghost s = chars@;
    let mut out: Vec<char> = Vec::new();
    if chars.len() == 0 {
        return out;
    }
    let mut last: char = chars[0];
    let mut num: usize = 1;
    let mut i: usize = 1;
    while i < chars.len()
        invariant
            s == chars@,
            1 <= i <= chars.len(),
            1 <= num <= i,
            last == s[i - 1],
            num == last_run(s.take(i as int)),
            out@ == said(s.take(i - num)),
        decreases chars.len() - i,
    {
        let c = chars[i];
        proof {
            assert(s.take(i + 1).drop_last() =~= s.take(i as int));
        }
        if c == last {
            num += 1;
        } else {
            proof {
                let t = s.take(i as int);
                assert(t.take(t.len() - num) =~= s.take(i - num));
            }
            push_decimal(&mut out, num as u64);
            out.push(last);
            last = c;
            num = 1;
        }
        i += 1;
    }
    proof {
        assert(s.take(i as int) =~= s);
    }
    push_decimal(&mut out, num as u64);
    out.push(last);
    out
}

/// Reads `s` aloud once.
pub fn do_look_and_say(s: String) -> (out: String)
    ensures
        out@ == said(s@),
{
    let chars = chars_of(s.as_str());
    string_of(&say(&chars))
}

/// Reads `s` aloud `repeat_times` times over.
pub fn look_and_say(s: &str, repeat_times: u16) -> (out: String)
    ensures
        out@ == said_times(s@, repeat_times as nat),
{
    let mut last = chars_of(s);
    let mut done: u16 = 0;
    while done < repeat_times
        invariant
            done <= repeat_times,
            last@ == said_times(s@, done as nat),
        decreases repeat_times - done,
    {
        last = say(&last);
        done += 1;
    }
    string_of(&last)
}

} // verus!
