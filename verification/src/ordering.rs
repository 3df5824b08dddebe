//! Enumerating every ordering of a list of items.
//!
//! The enumeration is by recursive insertion: the orderings of `x :: rest` are
//! the orderings of `rest` with `x` put at each position in turn. Rotations and
//! reflections of an ordering are separate candidates; nothing is canonicalised.

use vstd::prelude::*;
use vstd::arithmetic::div_mod::*;
use vstd::arithmetic::mul::*;

verus! {

/// `n!`.
pub open spec fn factorial(n: nat) -> nat
    decreases n,
{
    if n == 0 {
        1
    } else {
        n * factorial((n - 1) as nat)
    }
}

/// The views of a vector of vectors.
pub open spec fn rows<T>(v: Seq<Vec<T>>) -> Seq<Seq<T>> {
    v.map_values(|r: Vec<T>| r@)
}

/// Each member of `subs`, all of length `width - 1`, with `x` put at each of
/// its `width` positions: member `p` with `x` at position `i` stands at index
/// `p * width + i`.
pub open spec fn insert_everywhere<T>(x: T, subs: Seq<Seq<T>>, width: nat) -> Seq<Seq<T>> {
    Seq::new(subs.len() * width, |k: int| subs[k / (width as int)].insert(k % (width as int), x))
}

/// All orderings of `items`, in enumeration order. No ordering of nothing
/// exists, so the empty list has none.
pub open spec fn orderings<T>(items: Seq<T>) -> Seq<Seq<T>>
    decreases items.len(),
{
    if items.len() == 0 {
        Seq::empty()
    } else if items.len() == 1 {
        seq![items]
    } else {
        insert_everywhere(items[0], orderings(items.skip(1)), items.len())
    }
}

/// Every ordering is as long as the list it orders.
pub proof fn lemma_orderings_width<T>(items: Seq<T>, k: int)
    requires
        0 <= k < orderings(items).len(),
    ensures
        orderings(items)[k].len() == items.len(),
    decreases items.len(),
{
    if items.len() >= 2 {
        let n = items.len() as int;
        let subs = orderings(items.skip(1));
        lemma_index_in_block(subs.len() as int, n, k);
        lemma_orderings_width(items.skip(1), k / n);
    }
}

/// An index below `blocks * width` lies in block `k / width` at offset `k % width`.
proof fn lemma_index_in_block(blocks: int, width: int, k: int)
    requires
        0 < width,
        0 <= k < blocks * width,
    ensures
        0 <= k / width < blocks,
        0 <= k % width < width,
        k == (k / width) * width + k % width,
{
    lemma_fundamental_div_mod(k, width);
    lemma_mod_bound(k, width);
    let q = k / width;
    if q >= blocks {
        lemma_mul_inequality(blocks, q, width);
    }
    if q < 0 {
        lemma_mul_inequality(q, -1, width);
    }
    lemma_mul_is_commutative(q, width);
}

/// Offset `i` of block `p` is index `p * width + i`.
proof fn lemma_block_index(p: int, width: int, i: int)
    requires
        0 <= p,
        0 <= i < width,
    ensures
        (p * width + i) / width == p,
        (p * width + i) % width == i,
{
    lemma_fundamental_div_mod_converse(p * width + i, width, p, i);
}

/// The items of `input` without the first.
fn without_first(input: &Vec<usize>) -> (rest: Vec<usize>)
    requires
        input.len() >= 1,
    ensures
        rest@ == input@.skip(1),
{
    let mut rest: Vec<usize> = Vec::new();
    let mut i: usize = 1;
    while i < input.len()
        invariant
            1 <= i <= input.len(),
            rest@ == input@.subrange(1, i as int),
        decreases input.len() - i,
    {
        rest.push(input[i]);
        i += 1;
    }
    rest
}

/// All orderings of `input`, in the order of [`orderings`]: `n!` of them for
/// `n >= 1` items, none for the empty list.
pub fn permutations(input: Vec<usize>) -> (out: Vec<Vec<usize>>)
    ensures
        rows(out@) == orderings(input@),
    decreases input.len(),
{
    if input.len() == 0 {
        return Vec::new();
    }
    if input.len() == 1 {
        let mut out: Vec<Vec<usize>> = Vec::new();
        out.push(input);
        return out;
    }
    let elem: usize = input[0];
    let n: usize = input.len();
    let subs = permutations(without_first(&input));
    let ghost want = orderings(input@);
    let ghost tails = orderings(input@.skip(1));
    let mut out: Vec<Vec<usize>> = Vec::new();
    let mut p: usize = 0;
    while p < subs.len()
        invariant
            n == input.len(),
            n >= 2,
            elem == input[0],
            rows(subs@) == tails,
            tails == orderings(input@.skip(1)),
            want == insert_everywhere(elem, tails, n as nat),
            p <= subs.len(),
            out.len() == p * n,
            forall|k: int| 0 <= k < out.len() ==> (#[trigger] out[k])@ == want[k],
        decreases subs.len() - p,
    {
        proof {
            lemma_orderings_width(input@.skip(1), p as int);
        }
        let mut i: usize = 0;
        while i < n
            invariant
                n == input.len(),
                n >= 2,
                p < subs.len(),
                subs[p as int]@.len() == n - 1,
                rows(subs@) == tails,
                want == insert_everywhere(elem, tails, n as nat),
                i <= n,
                out.len() == p * n + i,
                forall|k: int| 0 <= k < out.len() ==> (#[trigger] out[k])@ == want[k],
            decreases n - i,
        {
            let mut v = subs[p].clone();
            v.insert(i, elem);
            proof {
                lemma_block_index(p as int, n as int, i as int);
                assert(v@ == want[p * n + i]) by {
                    assert((p + 1) * n <= subs.len() * n) by (nonlinear_arith)
                        requires p + 1 <= subs.len(), n >= 0;
                    assert((p + 1) * n == p * n + n) by (nonlinear_arith);
                }
            }
            out.push(v);
            i += 1;
        }
        proof {
            assert((p + 1) * n == p * n + n) by (nonlinear_arith);
        }
        p += 1;
    }
    out
}

/// `n!` is at least 1.
pub proof fn lemma_factorial_positive(n: nat)
    ensures
        factorial(n) >= 1,
    decreases n,
{
    if n > 0 {
        lemma_factorial_positive((n - 1) as nat);
        assert(n * factorial((n - 1) as nat) >= 1) by (nonlinear_arith)
            requires
                n >= 1,
                factorial((n - 1) as nat) >= 1,
        ;
    }
}

/// The number of orderings of `n >= 1` items is `n!`.
pub proof fn lemma_orderings_count<T>(items: Seq<T>)
    requires
        items.len() >= 1,
    ensures
        orderings(items).len() == factorial(items.len()),
    decreases items.len(),
{
    reveal_with_fuel(factorial, 2);
    if items.len() >= 2 {
        lemma_orderings_count(items.skip(1));
        let n = items.len() as int;
        let m = orderings(items.skip(1)).len() as int;
        assert(m * n == n * m) by (nonlinear_arith);
    }
}

/// Every ordering holds exactly the items of the list, each as often as the
/// list does.
pub proof fn lemma_orderings_permute<T>(items: Seq<T>, k: int)
    requires
        0 <= k < orderings(items).len(),
    ensures
        orderings(items)[k].to_multiset() == items.to_multiset(),
    decreases items.len(),
{
    if items.len() >= 2 {
        let n = items.len() as int;
        let tail = items.skip(1);
        let subs = orderings(tail);
        lemma_index_in_block(subs.len() as int, n, k);
        lemma_orderings_permute(tail, k / n);
        lemma_orderings_width(tail, k / n);
        vstd::seq_lib::to_multiset_insert(subs[k / n], k % n, items[0]);
        vstd::seq_lib::to_multiset_insert(tail, 0, items[0]);
        assert(tail.insert(0, items[0]) =~= items);
    }
}

/// Where `x` occurs in neither of two lists, putting it into each gives equal
/// lists only from equal lists at equal positions.
proof fn lemma_insert_injective<T>(a: Seq<T>, i: int, b: Seq<T>, j: int, x: T)
    requires
        0 <= i <= a.len(),
        0 <= j <= b.len(),
        !a.contains(x),
        !b.contains(x),
        a.insert(i, x) == b.insert(j, x),
    ensures
        i == j,
        a == b,
{
    let r = a.insert(i, x);
    assert(a.len() == b.len()) by {
        assert(a.insert(i, x).len() == a.len() + 1);
    }
    if i < j {
        assert(r[j] == a[j - 1]);
    } else if j < i {
        assert(r[i] == x);
    }
    assert(a =~= r.remove(i));
}

/// The orderings of a list of distinct items are distinct.
pub proof fn lemma_orderings_distinct<T>(items: Seq<T>)
    requires
        items.no_duplicates(),
    ensures
        orderings(items).no_duplicates(),
    decreases items.len(),
{
    if items.len() >= 2 {
        let n = items.len() as int;
        let x = items[0];
        let tail = items.skip(1);
        let subs = orderings(tail);
        let all = orderings(items);
        lemma_orderings_distinct(tail);
        assert forall|ka: int, kb: int| 0 <= ka < all.len() && 0 <= kb < all.len() && ka != kb
            implies all[ka] != all[kb] by {
            lemma_index_in_block(subs.len() as int, n, ka);
            lemma_index_in_block(subs.len() as int, n, kb);
            let (pa, ia) = (ka / n, ka % n);
            let (pb, ib) = (kb / n, kb % n);
            lemma_orderings_width(tail, pa);
            lemma_orderings_width(tail, pb);
            lemma_orderings_permute(tail, pa);
            lemma_orderings_permute(tail, pb);
            subs[pa].to_multiset_ensures();
            subs[pb].to_multiset_ensures();
            tail.to_multiset_ensures();
            assert(tail.to_multiset().count(x) == 0);
            if all[ka] == all[kb] {
                lemma_insert_injective(subs[pa], ia, subs[pb], ib, x);
            }
        }
    }
}

/// Every arrangement of the items of a list is one of its orderings: nothing
/// is left out.
pub proof fn lemma_orderings_complete<T>(items: Seq<T>, p: Seq<T>)
    requires
        items.len() >= 1,
        p.to_multiset() == items.to_multiset(),
    ensures
        orderings(items).contains(p),
    decreases items.len(),
{
    p.to_multiset_ensures();
    items.to_multiset_ensures();
    let n = items.len() as int;
    if n == 1 {
        assert(items.contains(items[0]));
        assert(p.to_multiset().count(items[0]) > 0);
        let i = choose|i: int| 0 <= i < p.len() && p[i] == items[0];
        assert(p =~= items);
        assert(orderings(items)[0] == p);
    } else {
        let x = items[0];
        let tail = items.skip(1);
        assert(items.contains(x));
        assert(p.to_multiset().count(x) > 0);
        let i = choose|i: int| 0 <= i < p.len() && p[i] == x;
        let sub = p.remove(i);
        vstd::seq_lib::to_multiset_remove(p, i);
        vstd::seq_lib::to_multiset_insert(tail, 0, x);
        assert(tail.insert(0, x) =~= items);
        assert(sub.to_multiset() =~= tail.to_multiset());
        lemma_orderings_complete(tail, sub);
        let subs = orderings(tail);
        let j = choose|j: int| 0 <= j < subs.len() && subs[j] == sub;
        lemma_block_index(j, n, i);
        assert((j + 1) * n <= subs.len() * n) by (nonlinear_arith)
            requires
                j + 1 <= subs.len(),
                n >= 0,
        ;
        assert((j + 1) * n == j * n + n) by (nonlinear_arith);
        assert(sub.insert(i, x) =~= p);
        assert(orderings(items)[j * n + i] == p);
    }
}

} // verus!
