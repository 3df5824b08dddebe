//! Following instructions up and down the floors of a building.

use vstd::prelude::*;
use vstd::string::*;
use crate::text::chars_of;

verus! {

/// Where the instructions end, and where they first lead into the basement.
#[derive(Clone, Copy, Debug, PartialEq, Eq, Structural)]
pub struct SantaResult {
    pub floor: i32,
    pub position: usize,
}

/// What one instruction does to the floor: `(` goes up, `)` goes down,
/// anything else stays.
pub open spec fn step(c: char) -> int {
    if c == '(' {
        1
    } else if c == ')' {
        -1
    } else {
        0
    }
}

/// The floor after the first `n` instructions, starting from floor 0.
pub open spec fn floor_after(s: Seq<char>, n: nat) -> int
    decreases n,
{
    if n == 0 {
        0
    } else {
        floor_after(s, (n - 1) as nat) + step(s[n - 1])
    }
}

/// The floor never moves further than there are instructions.
pub proof fn lemma_floor_range(s: Seq<char>, n: nat)
    ensures
        -(n as int) <= floor_after(s, n) <= n,
    decreases n,
{
    if n > 0 {
        lemma_floor_range(s, (n - 1) as nat);
    }
}

/// The floor that the instructions end on, and the number of the first
/// instruction after which the floor is -1, or 0 where there is none.
pub fn check_result(input: &str) -> (r: SantaResult)
    requires
        input@.len() <= i32::MAX,
    ensures
        r.floor == floor_after(input@, input@.len()),
        r.position <= input@.len(),
        r.position > 0 ==> floor_after(input@, r.position as nat) == -1,
        forall|n: nat|
            1 <= n <= input@.len() && (n < r.position || r.position == 0) ==> #[trigger] floor_after(
                input@,
                n,
            ) != -1,
{
    let chars = chars_of(input);
    let mut floor: i32 = 0;
    let mut position: usize = 0;
    let mut i: usize = 0;
    while i < chars.len()
        invariant
            chars@ == input@,
            chars.len() <= i32::MAX,
            i <= chars.len(),
            floor == floor_after(input@, i as nat),
            position <= i,
            position > 0 ==> floor_after(input@, position as nat) == -1,
            forall|n: nat|
                1 <= n <= i && (n < position || position == 0) ==> #[trigger] floor_after(input@, n)
                    != -1,
        decreases chars.len() - i,
    {
        let c = chars[i];
        proof {
            lemma_floor_range(input@, i as nat);
        }
        if c == '(' {
            floor = floor + 1;
        } else if c == ')' {
            floor = floor - 1;
        }
        if floor == -1 && position == 0 {
            position = i + 1;
        }
        i += 1;
    }
    SantaResult { floor, position }
}

} // verus!
