//! Counting the houses that get a present as the instructions lead from house
//! to house on a grid.

use vstd::prelude::*;
use vstd::string::*;
use crate::text::chars_of;

verus! {

/// The house next to `pos` in a direction: `^` north, `>` east, `v` south,
/// `<` west; anything else stays.
pub open spec fn moved(direction: char, pos: (int, int)) -> (int, int) {
    if direction == '^' {
        (pos.0, pos.1 + 1)
    } else if direction == '>' {
        (pos.0 + 1, pos.1)
    } else if direction == 'v' {
        (pos.0, pos.1 - 1)
    } else if direction == '<' {
        (pos.0 - 1, pos.1)
    } else {
        pos
    }
}

/// The house next to `pos` in a direction.
pub fn next_pos(direction: char, pos: (i32, i32)) -> (next: (i32, i32))
    requires
        i32::MIN <= moved(direction, (pos.0 as int, pos.1 as int)).0 <= i32::MAX,
        i32::MIN <= moved(direction, (pos.0 as int, pos.1 as int)).1 <= i32::MAX,
    ensures
        (next.0 as int, next.1 as int) == moved(direction, (pos.0 as int, pos.1 as int)),
{
    let mut new_x = pos.0;
    let mut new_y = pos.1;
    if direction == '^' {
        new_y += 1;
    } else if direction == '>' {
        new_x += 1;
    } else if direction == 'v' {
        new_y -= 1;
    } else if direction == '<' {
        new_x -= 1;
    }
    (new_x, new_y)
}

/// Where one who starts at the origin and follows every `stride`-th
/// instruction from `first` on stands after `n` moves.
pub open spec fn house_after(s: Seq<char>, first: int, stride: int, n: nat) -> (int, int)
    decreases n,
{
    if n == 0 {
        (0, 0)
    } else {
        moved(s[first + stride * (n - 1)], house_after(s, first, stride, (n - 1) as nat))
    }
}

/// The number of moves of one who follows every `stride`-th instruction from
/// `first` on.
pub open spec fn moves(s: Seq<char>, first: int, stride: int) -> nat {
    if first >= s.len() {
        0
    } else {
        ((s.len() - first + stride - 1) / stride) as nat
    }
}

/// The houses that one who follows every `stride`-th instruction from `first`
/// on comes to, the origin among them.
pub open spec fn houses_of(s: Seq<char>, first: int, stride: int) -> Set<(int, int)> {
    Set::new(
        |p: (int, int)|
            exists|n: nat| n <= moves(s, first, stride) && house_after(s, first, stride, n) == p,
    )
}

/// The houses that one comes to on the first `n` moves.
pub open spec fn houses_within(s: Seq<char>, first: int, stride: int, n: nat) -> Set<(int, int)> {
    Set::new(|p: (int, int)| exists|k: nat| k <= n && house_after(s, first, stride, k) == p)
}

/// A move leads at most one house further from the origin.
proof fn lemma_house_range(s: Seq<char>, first: int, stride: int, n: nat)
    ensures
        -(n as int) <= house_after(s, first, stride, n).0 <= n,
        -(n as int) <= house_after(s, first, stride, n).1 <= n,
    decreases n,
{
    if n > 0 {
        lemma_house_range(s, first, stride, (n - 1) as nat);
    }
}

/// The houses as pairs of numbers.
pub open spec fn pairs(seen: Seq<(i32, i32)>) -> Seq<(int, int)> {
    seen.map_values(|p: (i32, i32)| (p.0 as int, p.1 as int))
}

/// Puts `pos` on the list of houses unless it is there.
fn visit(seen: &mut Vec<(i32, i32)>, pos: (i32, i32))
    requires
        pairs(old(seen)@).no_duplicates(),
    ensures
        pairs(final(seen)@).no_duplicates(),
        pairs(final(seen)@).to_set() == pairs(old(seen)@).to_set().insert(
            (pos.0 as int, pos.1 as int),
        ),
{
    let ghost before = pairs(seen@);
    let ghost p = (pos.0 as int, pos.1 as int);
    let mut i: usize = 0;
    while i < seen.len()
        invariant
            i <= seen.len(),
            before == pairs(seen@),
            before.no_duplicates(),
            p == (pos.0 as int, pos.1 as int),
            forall|j: int| 0 <= j < i ==> before[j] != p,
        decreases seen.len() - i,
    {
        let q = seen[i];
        assert(before[i as int] == (q.0 as int, q.1 as int));
        if q.0 == pos.0 && q.1 == pos.1 {
            return ;
        }
        i += 1;
    }
    seen.push(pos);
    proof {
        let after = pairs(seen@);
        assert(after =~= before.push(p));
        assert(after.to_set() =~= before.to_set().insert(p)) by {
            assert forall|x: (int, int)| after.to_set().contains(x) <==> before.to_set().insert(
                p,
            ).contains(x) by {
                if after.contains(x) {
                    let k = choose|k: int| 0 <= k < after.len() && after[k] == x;
                    assert(k < before.len() ==> before[k] == x);
                }
                if before.contains(x) {
                    let k = choose|k: int| 0 <= k < before.len() && before[k] == x;
                    assert(after[k] == x);
                }
                if x == p {
                    assert(after[before.len() as int] == p);
                }
            }
        }
    }
}

/// Follows every `stride`-th instruction from `first` on and puts each house
/// on the way on the list.
fn walk(chars: &Vec<char>, first: usize, stride: usize, seen: &mut Vec<(i32, i32)>)
    requires
        chars.len() <= i32::MAX - 1,
        1 <= stride <= 2,
        first < stride,
        pairs(old(seen)@).no_duplicates(),
    ensures
        pairs(final(seen)@).no_duplicates(),
        pairs(final(seen)@).to_set() == pairs(old(seen)@).to_set().union(
            houses_of(chars@, first as int, stride as int),
        ),
{
    let ghost s = chars@;
    let ghost start = pairs(seen@).to_set();
    let mut pos: (i32, i32) = (0, 0);
    visit(seen, pos);
    let mut n: usize = 0;
    let mut at: usize = first;
    proof {
        assert(houses_within(s, first as int, stride as int, 0) =~= set![(0int, 0int)]) by {
            assert(house_after(s, first as int, stride as int, 0) == (0int, 0int));
        }
        assert(start.insert((0int, 0int)) =~= start.union(
            houses_within(s, first as int, stride as int, 0),
        ));
    }
    while at < chars.len()
        invariant
            s == chars@,
            chars.len() <= i32::MAX - 1,
            1 <= stride <= 2,
            first < stride,
            at == first + stride * n,
            n <= chars.len(),
            n == 0 || first + stride * (n - 1) < chars.len(),
            (pos.0 as int, pos.1 as int) == house_after(s, first as int, stride as int, n as nat),
            pairs(seen@).no_duplicates(),
            pairs(seen@).to_set() == start.union(
                houses_within(s, first as int, stride as int, n as nat),
            ),
        decreases chars.len() + 2 - at,
    {
        proof {
            lemma_house_range(s, first as int, stride as int, n as nat);
            assert(stride * n <= at) by (nonlinear_arith)
                requires
                    at == first + stride * n,
            ;
            assert(n <= stride * n) by (nonlinear_arith)
                requires
                    stride >= 1,
            ;
        }
        pos = next_pos(chars[at], pos);
        visit(seen, pos);
        proof {
            let more = houses_within(s, first as int, stride as int, (n + 1) as nat);
            let less = houses_within(s, first as int, stride as int, n as nat);
            let p = (pos.0 as int, pos.1 as int);
            assert(house_after(s, first as int, stride as int, (n + 1) as nat) == p);
            assert(more =~= less.insert(p)) by {
                assert forall|x: (int, int)| more.contains(x) <==> less.insert(p).contains(x) by {
                    if more.contains(x) {
                        let k = choose|k: nat|
                            k <= n + 1 && house_after(s, first as int, stride as int, k) == x;
                        assert(k <= n ==> less.contains(x));
                    }
                }
            }
            assert(stride * (n + 1) == stride * n + stride) by (nonlinear_arith);
        }
        n += 1;
        at += stride;
    }
    proof {
        let total = moves(s, first as int, stride as int);
        assert(n == total) by {
            if first as int >= s.len() {
                assert(n == 0) by (nonlinear_arith)
                    requires
                        at == first + stride * n,
                        at >= s.len(),
                        first >= s.len(),
                        n <= s.len(),
                        stride >= 1,
                        n == 0 || first + stride * (n - 1) < s.len(),
                ;
            } else {
                lemma_stride_count(s.len() as int, first as int, stride as int, n as int);
            }
        }
        assert(houses_within(s, first as int, stride as int, n as nat) =~= houses_of(
            s,
            first as int,
            stride as int,
        ));
    }
}

/// The first multiple of `stride` from `first` on that is not below `len` is
/// the one that the rounded-up quotient gives.
proof fn lemma_stride_count(len: int, first: int, stride: int, n: int)
    requires
        0 <= first < len,
        1 <= stride,
        0 <= n,
        first + stride * n >= len,
        n == 0 || first + stride * (n - 1) < len,
    ensures
        n == (len - first + stride - 1) / stride,
{
    let x = len - first + stride - 1;
    assert(0 <= x - n * stride < stride) by (nonlinear_arith)
        requires
            n == 0 || first + stride * (n - 1) < len,
            first + stride * n >= len,
            first < len,
            stride >= 1,
            x == len - first + stride - 1,
    ;
    vstd::arithmetic::div_mod::lemma_fundamental_div_mod_converse(x, stride, n, x - n * stride);
}

/// The number of houses that get a present when one follows all the
/// instructions from the origin; without instructions, none.
pub fn spread_presents(input: &str) -> (count: usize)
    requires
        input@.len() <= i32::MAX - 1,
    ensures
        count == if input@.len() == 0 {
            0
        } else {
            houses_of(input@, 0, 1).len()
        },
{
    let chars = chars_of(input);
    if chars.len() == 0 {
        return 0;
    }
    let mut seen: Vec<(i32, i32)> = Vec::new();
    assert(pairs(seen@) =~= Seq::<(int, int)>::empty());
    walk(&chars, 0, 1, &mut seen);
    proof {
        pairs(seen@).unique_seq_to_set();
        assert(Seq::<(int, int)>::empty().to_set() =~= Set::<(int, int)>::empty());
        assert(Set::<(int, int)>::empty().union(houses_of(chars@, 0, 1)) =~= houses_of(
            chars@,
            0,
            1,
        ));
    }
    seen.len()
}

/// The number of houses that get a present when two take turns with the
/// instructions, each starting from the origin: the first follows the
/// instructions at even places, the second those at odd places. Without
/// instructions, none.
pub fn spread_presents_with_robot(input: &str) -> (count: usize)
    requires
        input@.len() <= i32::MAX - 1,
    ensures
        count == if input@.len() == 0 {
            0
        } else {
            houses_of(input@, 0, 2).union(houses_of(input@, 1, 2)).len()
        },
{
    let chars = chars_of(input);
    if chars.len() == 0 {
        return 0;
    }
    let mut seen: Vec<(i32, i32)> = Vec::new();
    assert(pairs(seen@) =~= Seq::<(int, int)>::empty());
    walk(&chars, 0, 2, &mut seen);
    walk(&chars, 1, 2, &mut seen);
    proof {
        pairs(seen@).unique_seq_to_set();
        assert(Seq::<(int, int)>::empty().to_set() =~= Set::<(int, int)>::empty());
        assert(Set::<(int, int)>::empty().union(houses_of(chars@, 0, 2)).union(
            houses_of(chars@, 1, 2),
        ) =~= houses_of(chars@, 0, 2).union(houses_of(chars@, 1, 2)));
    }
    seen.len()
}

} // verus!
