//! Enumerating every way to split a total among a list of items.
//!
//! A split gives each item a quantity, by position; the quantities add up to
//! the total. The enumeration goes by the first item's share, from nothing up
//! to everything, and for each share by the splits of what remains among the
//! other items.

use vstd::prelude::*;

verus! {

/// The number of ways to choose `r` out of `n`, by Pascal's rule.
pub open spec fn binomial(n: nat, r: nat) -> nat
    decreases n,
{
    if r == 0 {
        1
    } else if n == 0 {
        0
    } else {
        binomial((n - 1) as nat, (r - 1) as nat) + binomial((n - 1) as nat, r)
    }
}

/// The quantities of a split add up to this.
pub open spec fn total_quantity(split: Seq<nat>) -> nat
    decreases split.len(),
{
    if split.len() == 0 {
        0
    } else {
        total_quantity(split.drop_last()) + split.last()
    }
}

/// Each member of `rest` with `share` in front.
pub open spec fn with_first(share: nat, rest: Seq<Seq<nat>>) -> Seq<Seq<nat>> {
    rest.map_values(|r: Seq<nat>| seq![share].add(r))
}

/// The splits of `total` among `k >= 2` items in which the first item gets
/// less than `limit`, by rising share of the first item.
pub open spec fn splits_below(k: nat, total: nat, limit: nat) -> Seq<Seq<nat>>
    decreases k, 0nat, limit,
{
    if k < 2 || limit == 0 || limit > total + 1 {
        Seq::empty()
    } else {
        let share = (limit - 1) as nat;
        splits_below(k, total, share).add(
            with_first(share, splits((k - 1) as nat, (total - share) as nat)),
        )
    }
}

/// All splits of `total` among `k` items, in enumeration order. Nothing can be
/// split among no items, so `k == 0` has no split.
pub open spec fn splits(k: nat, total: nat) -> Seq<Seq<nat>>
    decreases k, 1nat, 0nat,
{
    if k == 0 {
        Seq::empty()
    } else if k == 1 {
        seq![seq![total]]
    } else {
        splits_below(k, total, total + 1)
    }
}

/// The quantities of a vector of splits.
pub open spec fn quantities(v: Seq<Vec<u32>>) -> Seq<Seq<nat>> {
    v.map_values(|r: Vec<u32>| r@.map_values(|q: u32| q as nat))
}

/// All splits of `remain_amount` among `items`, in the order of [`splits`]:
/// entry `i` of a split is the quantity of `items[i]`.
pub fn all_combinations<T>(items: &[T], remain_amount: u32) -> (out: Vec<Vec<u32>>)
    ensures
        quantities(out@) == splits(items@.len(), remain_amount as nat),
    decreases items@.len(),
{
    let k = items.len();
    if k == 0 {
        return Vec::new();
    }
    if k == 1 {
        let mut only: Vec<u32> = Vec::new();
        only.push(remain_amount);
        let mut out: Vec<Vec<u32>> = Vec::new();
        out.push(only);
        assert(quantities(out@) =~= seq![seq![remain_amount as nat]]) by {
            assert(quantities(out@)[0] =~= seq![remain_amount as nat]);
        }
        return out;
    }
    let others = &items[1..k];
    let ghost kn = k as nat;
    let ghost total = remain_amount as nat;
    let mut out: Vec<Vec<u32>> = Vec::new();
    let mut amount: u32 = 0;
    loop
        invariant_except_break
            amount <= remain_amount,
            quantities(out@) == splits_below(kn, total, amount as nat),
        invariant
            kn == k,
            k >= 2,
            k == items@.len(),
            total == remain_amount,
            others@.len() == k - 1,
        ensures
            quantities(out@) == splits_below(kn, total, total + 1),
        decreases remain_amount - amount,
    {
        let subs = all_combinations(others, remain_amount - amount);
        let ghost before = quantities(out@);
        let ghost tails = splits((kn - 1) as nat, (total - amount) as nat);
        let mut j: usize = 0;
        while j < subs.len()
            invariant
                j <= subs.len(),
                quantities(subs@) == tails,
                quantities(out@) == before.add(with_first(amount as nat, tails).take(j as int)),
            decreases subs.len() - j,
        {
            let mut v: Vec<u32> = Vec::new();
            v.push(amount);
            let sub = &subs[j];
            let mut t: usize = 0;
            while t < sub.len()
                invariant
                    t <= sub.len(),
                    v@ == seq![amount].add(sub@.take(t as int)),
                decreases sub.len() - t,
            {
                v.push(sub[t]);
                t += 1;
            }
            proof {
                let row = v@.map_values(|q: u32| q as nat);
                assert(row =~= seq![amount as nat].add(tails[j as int]));
                let firsts = with_first(amount as nat, tails);
                assert(quantities(out@.push(v)) =~= quantities(out@).push(row));
            }
            out.push(v);
            j += 1;
        }
        if amount == remain_amount {
            break;
        }
        amount += 1;
    }
    out
}

/// No way to choose more than there is.
pub proof fn lemma_binomial_zero(n: nat, r: nat)
    requires
        n < r,
    ensures
        binomial(n, r) == 0,
    decreases n,
{
    if n > 0 {
        lemma_binomial_zero((n - 1) as nat, (r - 1) as nat);
        lemma_binomial_zero((n - 1) as nat, r);
    }
}

proof fn lemma_splits_below_count(k: nat, total: nat, limit: nat)
    requires
        k >= 2,
        limit <= total + 1,
    ensures
        splits_below(k, total, limit).len() + binomial(
            (total + k - 1 - limit) as nat,
            (k - 1) as nat,
        ) == binomial((total + k - 1) as nat, (k - 1) as nat),
    decreases k, 0nat, limit,
{
    if limit > 0 {
        let share = (limit - 1) as nat;
        lemma_splits_below_count(k, total, share);
        lemma_splits_count((k - 1) as nat, (total - share) as nat);
        let m = (total + k - 1 - limit) as nat;
        assert(binomial(m + 1, (k - 1) as nat) == binomial(m, (k - 2) as nat) + binomial(
            m,
            (k - 1) as nat,
        ));
    }
}

/// The number of splits of `total` among `k >= 1` items is the number of ways
/// to choose `k - 1` out of `total + k - 1`.
pub proof fn lemma_splits_count(k: nat, total: nat)
    requires
        k >= 1,
    ensures
        splits(k, total).len() == binomial((total + k - 1) as nat, (k - 1) as nat),
    decreases k, 1nat, 0nat,
{
    if k >= 2 {
        lemma_splits_below_count(k, total, total + 1);
        lemma_binomial_zero((k - 2) as nat, (k - 1) as nat);
    }
}

proof fn lemma_total_with_first(share: nat, rest: Seq<nat>)
    ensures
        total_quantity(seq![share].add(rest)) == share + total_quantity(rest),
    decreases rest.len(),
{
    if rest.len() == 0 {
        assert(seq![share].add(rest).drop_last() =~= Seq::<nat>::empty());
        assert(total_quantity(Seq::<nat>::empty()) == 0);
    } else {
        lemma_total_with_first(share, rest.drop_last());
        assert(seq![share].add(rest).drop_last() =~= seq![share].add(rest.drop_last()));
    }
}

proof fn lemma_splits_below_rows(k: nat, total: nat, limit: nat, i: int)
    requires
        0 <= i < splits_below(k, total, limit).len(),
    ensures
        splits_below(k, total, limit)[i].len() == k,
        total_quantity(splits_below(k, total, limit)[i]) == total,
    decreases k, 0nat, limit,
{
    let share = (limit - 1) as nat;
    let lower = splits_below(k, total, share);
    if i < lower.len() {
        lemma_splits_below_rows(k, total, share, i);
    } else {
        let tails = splits((k - 1) as nat, (total - share) as nat);
        let j = i - lower.len();
        lemma_splits_rows((k - 1) as nat, (total - share) as nat, j);
        lemma_total_with_first(share, tails[j]);
    }
}

/// Every split gives each of the `k` items a quantity, and the quantities add
/// up to `total`.
pub proof fn lemma_splits_rows(k: nat, total: nat, i: int)
    requires
        0 <= i < splits(k, total).len(),
    ensures
        splits(k, total)[i].len() == k,
        total_quantity(splits(k, total)[i]) == total,
    decreases k, 1nat, 0nat,
{
    if k == 1 {
        reveal_with_fuel(total_quantity, 2);
    } else {
        lemma_splits_below_rows(k, total, total + 1, i);
    }
}

proof fn lemma_splits_below_first(k: nat, total: nat, limit: nat, i: int)
    requires
        0 <= i < splits_below(k, total, limit).len(),
    ensures
        splits_below(k, total, limit)[i].len() >= 1,
        splits_below(k, total, limit)[i][0] < limit,
    decreases limit,
{
    let share = (limit - 1) as nat;
    let lower = splits_below(k, total, share);
    if i < lower.len() {
        lemma_splits_below_first(k, total, share, i);
    }
}

proof fn lemma_splits_below_distinct(k: nat, total: nat, limit: nat)
    ensures
        splits_below(k, total, limit).no_duplicates(),
    decreases k, 0nat, limit,
{
    if k >= 2 && 0 < limit <= total + 1 {
        let share = (limit - 1) as nat;
        let lower = splits_below(k, total, share);
        let tails = splits((k - 1) as nat, (total - share) as nat);
        let upper = with_first(share, tails);
        lemma_splits_below_distinct(k, total, share);
        lemma_splits_distinct((k - 1) as nat, (total - share) as nat);
        assert forall|i: int, j: int| 0 <= i < upper.len() && 0 <= j < upper.len() && i != j
            implies upper[i] != upper[j] by {
            assert(upper[i].skip(1) =~= tails[i]);
            assert(upper[j].skip(1) =~= tails[j]);
        }
        assert forall|i: int, j: int| 0 <= i < lower.len() && 0 <= j < upper.len() implies lower[i]
            != upper[j] by {
            lemma_splits_below_first(k, total, share, i);
            assert(upper[j][0] == share);
        }
        vstd::seq_lib::lemma_no_dup_in_concat(lower, upper);
    }
}

/// No split comes twice.
pub proof fn lemma_splits_distinct(k: nat, total: nat)
    ensures
        splits(k, total).no_duplicates(),
    decreases k, 1nat, 0nat,
{
    if k >= 2 {
        lemma_splits_below_distinct(k, total, total + 1);
    }
}

proof fn lemma_splits_below_holds(k: nat, total: nat, limit: nat, share: nat, j: int)
    requires
        k >= 2,
        share < limit <= total + 1,
        0 <= j < splits((k - 1) as nat, (total - share) as nat).len(),
    ensures
        splits_below(k, total, limit).contains(
            seq![share].add(splits((k - 1) as nat, (total - share) as nat)[j]),
        ),
    decreases limit,
{
    let top = (limit - 1) as nat;
    let lower = splits_below(k, total, top);
    let all = splits_below(k, total, limit);
    let wanted = seq![share].add(splits((k - 1) as nat, (total - share) as nat)[j]);
    if share == top {
        assert(all[lower.len() + j] == wanted);
    } else {
        lemma_splits_below_holds(k, total, top, share, j);
        let i = choose|i: int| 0 <= i < lower.len() && lower[i] == wanted;
        assert(all[i] == wanted);
    }
}

/// Every way to give each of `k >= 1` items a quantity so that the quantities
/// add up to `total` is one of the splits: nothing is left out.
pub proof fn lemma_splits_complete(k: nat, total: nat, split: Seq<nat>)
    requires
        k >= 1,
        split.len() == k,
        total_quantity(split) == total,
    ensures
        splits(k, total).contains(split),
    decreases k,
{
    if k == 1 {
        reveal_with_fuel(total_quantity, 2);
        assert(split.drop_last() =~= Seq::<nat>::empty());
        assert(split =~= seq![total]);
        assert(splits(k, total)[0] == split);
    } else {
        let share = split[0];
        let rest = split.skip(1);
        assert(seq![share].add(rest) =~= split);
        lemma_total_with_first(share, rest);
        lemma_splits_complete((k - 1) as nat, (total - share) as nat, rest);
        let tails = splits((k - 1) as nat, (total - share) as nat);
        let j = choose|j: int| 0 <= j < tails.len() && tails[j] == rest;
        lemma_splits_below_holds(k, total, total + 1, share, j);
    }
}

} // verus!
