//! The weight table: a number for some ordered pairs of items.
//!
//! Items are handles `0 .. size`. The table is filled before a search and only
//! read during it.

use vstd::prelude::*;

verus! {

/// Directed weights between the items `0 .. size`.
pub struct WeightTable {
    cells: Vec<Vec<Option<i64>>>,
}

impl WeightTable {
    /// The table is square: every item has a row over all items.
    pub closed spec fn wf(&self) -> bool {
        forall|a: int|
            0 <= a < self.cells.len() ==> (#[trigger] self.cells[a]).len() == self.cells.len()
    }

    /// The number of items.
    pub closed spec fn items(&self) -> nat {
        self.cells.len() as nat
    }

    /// The weight from `a` to `b`, where the table has one.
    pub closed spec fn weight(&self, a: int, b: int) -> Option<i64> {
        if 0 <= a < self.cells.len() && 0 <= b < self.cells.len() {
            self.cells[a][b]
        } else {
            None
        }
    }

    /// Only pairs of items have a weight.
    pub proof fn lemma_weight_among_items(&self, a: int, b: int)
        ensures
            self.weight(a, b) is Some ==> 0 <= a < self.items() && 0 <= b < self.items(),
    {
    }

    /// The item `a` has a row: the table holds a weight from `a` to some item.
    pub open spec fn has_row(&self, a: int) -> bool {
        exists|b: int| (#[trigger] self.weight(a, b)) is Some
    }

    /// A table over `size` items that holds no weight.
    pub fn new(size: usize) -> (table: WeightTable)
        ensures
            table.wf(),
            table.items() == size,
            forall|a: int, b: int| table.weight(a, b) is None,
    {
        let mut cells: Vec<Vec<Option<i64>>> = Vec::new();
        let mut a: usize = 0;
        while a < size
            invariant
                a <= size,
                cells.len() == a,
                forall|i: int| 0 <= i < a ==> (#[trigger] cells[i]).len() == size,
                forall|i: int, j: int| 0 <= i < a && 0 <= j < size ==> (#[trigger] cells[i][j]) is None,
            decreases size - a,
        {
            let mut row: Vec<Option<i64>> = Vec::new();
            let mut b: usize = 0;
            while b < size
                invariant
                    b <= size,
                    row.len() == b,
                    forall|j: int| 0 <= j < b ==> (#[trigger] row[j]) is None,
                decreases size - b,
            {
                row.push(None);
                b += 1;
            }
            cells.push(row);
            a += 1;
        }
        WeightTable { cells }
    }

    /// The number of items.
    pub fn size(&self) -> (n: usize)
        ensures
            n == self.items(),
    {
        self.cells.len()
    }

    /// The weight from `a` to `b`, where the table has one.
    pub fn get(&self, a: usize, b: usize) -> (w: Option<i64>)
        requires
            self.wf(),
        ensures
            w == self.weight(a as int, b as int),
    {
        if a < self.cells.len() && b < self.cells.len() {
            self.cells[a][b]
        } else {
            None
        }
    }

    /// Whether the table holds a weight from `a` to some item.
    pub fn row_exists(&self, a: usize) -> (r: bool)
        requires
            self.wf(),
        ensures
            r == self.has_row(a as int),
    {
        let n = self.cells.len();
        let mut b: usize = 0;
        while b < n
            invariant
                self.wf(),
                n == self.cells.len(),
                b <= n,
                forall|j: int| 0 <= j < b ==> (#[trigger] self.weight(a as int, j)) is None,
            decreases n - b,
        {
            if self.get(a, b).is_some() {
                return true;
            }
            b += 1;
        }
        false
    }

    /// Gives the pair `(a, b)` the weight `w`, in place of any it had.
    pub fn set(&mut self, a: usize, b: usize, w: i64)
        requires
            old(self).wf(),
            a < old(self).items(),
            b < old(self).items(),
        ensures
            final(self).wf(),
            final(self).items() == old(self).items(),
            forall|i: int, j: int|
                final(self).weight(i, j) == if i == a && j == b {
                    Some(w)
                } else {
                    old(self).weight(i, j)
                },
    {
        self.cells[a][b] = Some(w);
    }

    /// Takes the weight of the pair `(a, b)` away.
    pub fn unset(&mut self, a: usize, b: usize)
        requires
            old(self).wf(),
            a < old(self).items(),
            b < old(self).items(),
        ensures
            final(self).wf(),
            final(self).items() == old(self).items(),
            forall|i: int, j: int|
                final(self).weight(i, j) == if i == a && j == b {
                    None
                } else {
                    old(self).weight(i, j)
                },
    {
        self.cells[a][b] = None;
    }
}

} // verus!
