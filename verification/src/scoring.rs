//! Two scoring rules over a weight table: the sum along a path, and the
//! two-way sum around a cycle.
//!
//! Both read the table and change nothing. A lookup that finds no weight ends
//! the scoring with an error that names the pair.

use vstd::prelude::*;
use crate::optimizer::EngineError;
use crate::optimizer::Scoring;
use crate::table::WeightTable;

verus! {

/// The weight from `a` to `b` as a number, nothing counting as 0.
pub open spec fn pair_weight(table: &WeightTable, a: usize, b: usize) -> int {
    match table.weight(a as int, b as int) {
        Some(w) => w as int,
        None => 0,
    }
}

/// The number of adjacent pairs along an ordering.
pub open spec fn path_pairs(ordering: Seq<usize>) -> nat {
    if ordering.len() == 0 {
        0
    } else {
        (ordering.len() - 1) as nat
    }
}

/// The weights of the first `count` adjacent pairs of `ordering`, added up.
pub open spec fn path_total(table: &WeightTable, ordering: Seq<usize>, count: nat) -> int
    decreases count,
{
    if count == 0 {
        0
    } else {
        path_total(table, ordering, (count - 1) as nat) + pair_weight(
            table,
            ordering[count - 1],
            ordering[count as int],
        )
    }
}

/// The first of the first `count` adjacent pairs of `ordering` that has no
/// weight.
pub open spec fn path_gap(table: &WeightTable, ordering: Seq<usize>, count: nat) -> Option<
    (usize, usize),
>
    decreases count,
{
    if count == 0 {
        None
    } else {
        match path_gap(table, ordering, (count - 1) as nat) {
            Some(pair) => Some(pair),
            None => if table.weight(ordering[count - 1] as int, ordering[count as int] as int) is None {
                Some((ordering[count - 1], ordering[count as int]))
            } else {
                None
            },
        }
    }
}

/// Every running total along the path, up to the first pair without a weight,
/// is an `i64`.
pub open spec fn path_fits(table: &WeightTable, ordering: Seq<usize>) -> bool {
    forall|count: nat|
        count <= path_pairs(ordering) && path_gap(table, ordering, count) is None ==> i64::MIN
            <= #[trigger] path_total(table, ordering, count) <= i64::MAX
}

/// The path sum of an ordering: the weight of each item to its successor, with
/// no way back from the last to the first.
pub open spec fn path_value(table: &WeightTable, ordering: Seq<usize>) -> int {
    path_total(table, ordering, path_pairs(ordering))
}

/// Scores an ordering by its path sum.
pub fn path_sum(table: &WeightTable, ordering: &Vec<usize>) -> (r: Result<i64, EngineError>)
    requires
        table.wf(),
        path_fits(table, ordering@),
    ensures
        match path_gap(table, ordering@, path_pairs(ordering@)) {
            Some((from, to)) => r == Err::<i64, EngineError>(
                EngineError::MissingWeight { from, to },
            ),
            None => r matches Ok(s) && s == path_value(table, ordering@),
        },
{
    let pairs = if ordering.len() == 0 {
        0
    } else {
        ordering.len() - 1
    };
    let mut total: i64 = 0;
    let mut i: usize = 0;
    while i < pairs
        invariant
            table.wf(),
            path_fits(table, ordering@),
            pairs == path_pairs(ordering@),
            i <= pairs,
            path_gap(table, ordering@, i as nat) is None,
            total == path_total(table, ordering@, i as nat),
        decreases pairs - i,
    {
        match table.get(ordering[i], ordering[i + 1]) {
            Some(w) => {
                assert(i64::MIN <= path_total(table, ordering@, (i + 1) as nat) <= i64::MAX);
                total = total + w;
            },
            None => {
                proof {
                    lemma_path_gap_stays(table, ordering@, (i + 1) as nat, path_pairs(ordering@));
                }
                return Err(EngineError::MissingWeight { from: ordering[i], to: ordering[i + 1] });
            },
        }
        i += 1;
    }
    Ok(total)
}

/// A pair without a weight among the first `count` is still the first such
/// pair among more.
proof fn lemma_path_gap_stays(table: &WeightTable, ordering: Seq<usize>, count: nat, more: nat)
    requires
        count <= more,
        path_gap(table, ordering, count) is Some,
    ensures
        path_gap(table, ordering, more) == path_gap(table, ordering, count),
    decreases more,
{
    if count < more {
        lemma_path_gap_stays(table, ordering, count, (more - 1) as nat);
    }
}

/// The path sum as a rule for the optimizer.
pub struct PathSum<'a> {
    pub table: &'a WeightTable,
}

impl<'a> Scoring<Vec<usize>> for PathSum<'a> {
    open spec fn fits(&self, candidate: &Vec<usize>) -> bool {
        self.table.wf() && path_fits(self.table, candidate@)
    }

    open spec fn missing(&self, candidate: &Vec<usize>) -> Option<(usize, usize)> {
        path_gap(self.table, candidate@, path_pairs(candidate@))
    }

    open spec fn value(&self, candidate: &Vec<usize>) -> int {
        path_value(self.table, candidate@)
    }

    fn score(&self, candidate: &Vec<usize>) -> (r: Result<i64, EngineError>) {
        path_sum(self.table, candidate)
    }
}

/// The place after `i` around a cycle of `len` places.
pub open spec fn next_place(i: int, len: int) -> int {
    if i + 1 == len {
        0
    } else {
        i + 1
    }
}

/// What place `i` of the cycle adds: the weight from its item to the next and
/// the weight back.
pub open spec fn cycle_step(table: &WeightTable, ordering: Seq<usize>, i: int) -> int {
    let here = ordering[i];
    let there = ordering[next_place(i, ordering.len() as int)];
    pair_weight(table, here, there) + pair_weight(table, there, here)
}

/// What the first `count` places of the cycle add.
pub open spec fn cycle_total(table: &WeightTable, ordering: Seq<usize>, count: nat) -> int
    decreases count,
{
    if count == 0 {
        0
    } else {
        cycle_total(table, ordering, (count - 1) as nat) + cycle_step(table, ordering, count - 1)
    }
}

/// The first lookup of place `i` that finds no weight: forward first, then back.
pub open spec fn cycle_step_gap(table: &WeightTable, ordering: Seq<usize>, i: int) -> Option<
    (usize, usize),
> {
    let here = ordering[i];
    let there = ordering[next_place(i, ordering.len() as int)];
    if table.weight(here as int, there as int) is None {
        Some((here, there))
    } else if table.weight(there as int, here as int) is None {
        Some((there, here))
    } else {
        None
    }
}

/// The first lookup of the first `count` places that finds no weight.
pub open spec fn cycle_gap(table: &WeightTable, ordering: Seq<usize>, count: nat) -> Option<
    (usize, usize),
>
    decreases count,
{
    if count == 0 {
        None
    } else {
        match cycle_gap(table, ordering, (count - 1) as nat) {
            Some(pair) => Some(pair),
            None => cycle_step_gap(table, ordering, count - 1),
        }
    }
}

/// Every running total around the cycle, up to the first lookup that fails, is
/// an `i64`: after each place, and between its two weights.
pub open spec fn cycle_fits(table: &WeightTable, ordering: Seq<usize>) -> bool {
    forall|count: nat|
        count <= ordering.len() && cycle_gap(table, ordering, count) is None ==> {
            &&& i64::MIN <= #[trigger] cycle_total(table, ordering, count) <= i64::MAX
            &&& count < ordering.len() ==> i64::MIN <= cycle_total(table, ordering, count)
                + pair_weight(
                table,
                ordering[count as int],
                ordering[next_place(count as int, ordering.len() as int)],
            ) <= i64::MAX
        }
}

/// The first lookup around the cycle that finds no weight. An ordering of
/// fewer than two items has no neighbours and looks nothing up.
pub open spec fn cycle_missing(table: &WeightTable, ordering: Seq<usize>) -> Option<(usize, usize)> {
    if ordering.len() < 2 {
        None
    } else {
        cycle_gap(table, ordering, ordering.len())
    }
}

/// The two-way sum around the cycle: for each item and its successor, the last
/// item's successor being the first, the weight in both directions. An
/// ordering of fewer than two items scores 0.
pub open spec fn cycle_value(table: &WeightTable, ordering: Seq<usize>) -> int {
    if ordering.len() < 2 {
        0
    } else {
        cycle_total(table, ordering, ordering.len())
    }
}

proof fn lemma_cycle_gap_stays(table: &WeightTable, ordering: Seq<usize>, count: nat, more: nat)
    requires
        count <= more,
        cycle_gap(table, ordering, count) is Some,
    ensures
        cycle_gap(table, ordering, more) == cycle_gap(table, ordering, count),
    decreases more,
{
    if count < more {
        lemma_cycle_gap_stays(table, ordering, count, (more - 1) as nat);
    }
}

/// Scores an ordering by its two-way sum around the cycle.
pub fn cyclic_sum(table: &WeightTable, ordering: &Vec<usize>) -> (r: Result<i64, EngineError>)
    requires
        table.wf(),
        ordering.len() >= 2 ==> cycle_fits(table, ordering@),
    ensures
        match cycle_missing(table, ordering@) {
            Some((from, to)) => r == Err::<i64, EngineError>(
                EngineError::MissingWeight { from, to },
            ),
            None => r matches Ok(s) && s == cycle_value(table, ordering@),
        },
{
    let len = ordering.len();
    if len < 2 {
        return Ok(0);
    }
    let mut total: i64 = 0;
    let mut i: usize = 0;
    while i < len
        invariant
            table.wf(),
            len == ordering.len(),
            len >= 2,
            cycle_fits(table, ordering@),
            i <= len,
            cycle_gap(table, ordering@, i as nat) is None,
            total == cycle_total(table, ordering@, i as nat),
        decreases len - i,
    {
        let next = if i + 1 == len {
            0
        } else {
            i + 1
        };
        let forward = match table.get(ordering[i], ordering[next]) {
            Some(w) => w,
            None => {
                proof {
                    assert(cycle_step_gap(table, ordering@, i as int) == Some(
                        (ordering[i as int], ordering[next as int]),
                    ));
                    lemma_cycle_gap_stays(table, ordering@, (i + 1) as nat, len as nat);
                }
                return Err(EngineError::MissingWeight { from: ordering[i], to: ordering[next] });
            },
        };
        let back = match table.get(ordering[next], ordering[i]) {
            Some(w) => w,
            None => {
                proof {
                    assert(cycle_step_gap(table, ordering@, i as int) == Some(
                        (ordering[next as int], ordering[i as int]),
                    ));
                    lemma_cycle_gap_stays(table, ordering@, (i + 1) as nat, len as nat);
                }
                return Err(EngineError::MissingWeight { from: ordering[next], to: ordering[i] });
            },
        };
        assert(i64::MIN <= cycle_total(table, ordering@, (i + 1) as nat) <= i64::MAX);
        total = total + forward;
        total = total + back;
        i += 1;
    }
    Ok(total)
}

/// The two-way sum around the cycle as a rule for the optimizer.
pub struct CyclicSum<'a> {
    pub table: &'a WeightTable,
}

impl<'a> Scoring<Vec<usize>> for CyclicSum<'a> {
    open spec fn fits(&self, candidate: &Vec<usize>) -> bool {
        self.table.wf() && (candidate.len() >= 2 ==> cycle_fits(self.table, candidate@))
    }

    open spec fn missing(&self, candidate: &Vec<usize>) -> Option<(usize, usize)> {
        cycle_missing(self.table, candidate@)
    }

    open spec fn value(&self, candidate: &Vec<usize>) -> int {
        cycle_value(self.table, candidate@)
    }

    fn score(&self, candidate: &Vec<usize>) -> (r: Result<i64, EngineError>) {
        cyclic_sum(self.table, candidate)
    }
}

/// The path sum of an ordering of two items is the one weight from the first
/// to the second: nothing is counted twice and nothing leads back.
pub proof fn lemma_path_of_two(table: &WeightTable, a: usize, b: usize)
    ensures
        path_value(table, seq![a, b]) == pair_weight(table, a, b),
        path_gap(table, seq![a, b], 1) is None ==> table.weight(a as int, b as int) == Some(
            path_value(table, seq![a, b]) as i64,
        ),
{
    reveal_with_fuel(path_total, 2);
    reveal_with_fuel(path_gap, 2);
}

/// Around a cycle, an ordering of fewer than two items scores 0 and looks
/// nothing up.
pub proof fn lemma_cycle_of_few(table: &WeightTable, ordering: Seq<usize>)
    requires
        ordering.len() < 2,
    ensures
        cycle_value(table, ordering) == 0,
        cycle_missing(table, ordering) is None,
{
}

/// Every weight of the table lies between `-bound` and `bound`.
pub open spec fn weights_within(table: &WeightTable, bound: int) -> bool {
    forall|a: int, b: int|
        (#[trigger] table.weight(a, b)) matches Some(w) ==> -bound <= w <= bound
}

proof fn lemma_path_total_within(table: &WeightTable, ordering: Seq<usize>, bound: int, count: nat)
    requires
        weights_within(table, bound),
        0 <= bound,
    ensures
        -(count * bound) <= path_total(table, ordering, count) <= count * bound,
    decreases count,
{
    if count > 0 {
        lemma_path_total_within(table, ordering, bound, (count - 1) as nat);
        assert(count * bound == (count - 1) * bound + bound) by (nonlinear_arith);
    }
}

/// With weights of size at most `bound`, the path sums of an ordering short
/// enough for `len * bound` to be an `i64` are all `i64`.
pub proof fn lemma_path_fits(table: &WeightTable, ordering: Seq<usize>, bound: int)
    requires
        weights_within(table, bound),
        0 <= bound,
        ordering.len() * bound <= i64::MAX,
    ensures
        path_fits(table, ordering),
{
    assert forall|count: nat| count <= path_pairs(ordering) implies i64::MIN
        <= #[trigger] path_total(table, ordering, count) <= i64::MAX by {
        lemma_path_total_within(table, ordering, bound, count);
        assert(count * bound <= ordering.len() * bound) by (nonlinear_arith)
            requires
                count <= ordering.len(),
                0 <= bound,
        ;
    }
}

proof fn lemma_cycle_total_within(table: &WeightTable, ordering: Seq<usize>, bound: int, count: nat)
    requires
        weights_within(table, bound),
        0 <= bound,
    ensures
        -(2 * count * bound) <= cycle_total(table, ordering, count) <= 2 * count * bound,
    decreases count,
{
    if count > 0 {
        lemma_cycle_total_within(table, ordering, bound, (count - 1) as nat);
        assert(2 * count * bound == 2 * (count - 1) * bound + 2 * bound) by (nonlinear_arith);
    }
}

/// With weights of size at most `bound`, the sums around an ordering short
/// enough for `2 * len * bound` to be an `i64` are all `i64`.
pub proof fn lemma_cycle_fits(table: &WeightTable, ordering: Seq<usize>, bound: int)
    requires
        weights_within(table, bound),
        0 <= bound,
        2 * ordering.len() * bound <= i64::MAX,
    ensures
        cycle_fits(table, ordering),
{
    assert forall|count: nat| count <= ordering.len() implies {
        &&& i64::MIN <= #[trigger] cycle_total(table, ordering, count) <= i64::MAX
        &&& count < ordering.len() ==> i64::MIN <= cycle_total(table, ordering, count)
            + pair_weight(
            table,
            ordering[count as int],
            ordering[next_place(count as int, ordering.len() as int)],
        ) <= i64::MAX
    } by {
        lemma_cycle_total_within(table, ordering, bound, count);
        assert(2 * count * bound <= 2 * ordering.len() * bound) by (nonlinear_arith)
            requires
                count <= ordering.len(),
                0 <= bound,
        ;
        if count < ordering.len() {
            assert(2 * count * bound + bound <= 2 * ordering.len() * bound) by (nonlinear_arith)
                requires
                    count < ordering.len(),
                    0 <= bound,
            ;
        }
    }
}

} // verus!
