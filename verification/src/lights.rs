//! A square grid of lights that instructions switch or dim, one rectangle at
//! a time.

use vstd::prelude::*;
use vstd::string::*;
use crate::pattern::captures;
use crate::pattern::group;
use crate::pattern::group_text;
use crate::pattern::groups_view;
use crate::pattern::regex_captures;
use crate::text::parse_unsigned;
use crate::text::piece_texts;
use crate::text::pieces;
use crate::text::same_text;
use crate::text::split;
use crate::text::unsigned_decimal;

verus! {

/// What an instruction does to a light.
#[derive(Clone, Copy, Debug, PartialEq, Eq, Structural)]
pub enum Action {
    TurnOn,
    TurnOff,
    TOGGLE,
}

/// A place on the grid: column, then row.
#[derive(Clone, Copy, Debug, PartialEq, Eq, Structural)]
pub struct Position(pub usize, pub usize);

/// An action on the rectangle between two corners, both included.
#[derive(Clone, Copy, Debug, PartialEq, Eq, Structural)]
pub struct Instruction {
    pub action: Action,
    pub start: Position,
    pub end: Position,
}

/// A line is no instruction.
#[derive(Clone, Copy, Debug, PartialEq, Eq, Structural)]
pub struct ParseInstructionError;

impl ParseInstructionError {
    /// The error in words.
    pub fn to_string(&self) -> (s: String)
        ensures
            s@ == "provided string was not `true` or `false`"@,
    {
        String::from_str("provided string was not `true` or `false`")
    }
}

/// The action that `s` names.
pub open spec fn action_named(s: Seq<char>) -> Option<Action> {
    if s == "turn on"@ {
        Some(Action::TurnOn)
    } else if s == "turn off"@ {
        Some(Action::TurnOff)
    } else if s == "toggle"@ {
        Some(Action::TOGGLE)
    } else {
        None
    }
}

/// The number that a piece writes, where it is a `usize`.
pub open spec fn coordinate(piece: Seq<char>) -> Option<usize> {
    match unsigned_decimal(piece) {
        Some(v) => if v <= usize::MAX {
            Some(v as usize)
        } else {
            None
        },
        None => None,
    }
}

/// The place that `s` writes: numbers with commas between them, all of them
/// `usize` and at least two, of which the first two count.
pub open spec fn position_written(s: Seq<char>) -> Option<Position> {
    let parts = pieces(s, ',');
    if parts.len() >= 2 && (forall|i: int| 0 <= i < parts.len() ==> coordinate(#[trigger] parts[i]) is Some) {
        Some(Position(coordinate(parts[0])->0, coordinate(parts[1])->0))
    } else {
        None
    }
}

/// The instruction that the groups of a matched line spell out.
pub open spec fn instruction_of_groups(groups: Seq<Option<Seq<char>>>) -> Option<Instruction> {
    if groups.len() < 4 {
        None
    } else {
        match (group_text(groups, 1), group_text(groups, 2), group_text(groups, 3)) {
            (Some(a), Some(b), Some(c)) => match (
                action_named(a),
                position_written(b),
                position_written(c),
            ) {
                (Some(action), Some(start), Some(end)) => Some(Instruction { action, start, end }),
                _ => None,
            },
            _ => None,
        }
    }
}

/// The instruction that a line spells out, going by what the pattern finds in
/// it.
pub open spec fn instruction_of_line(line: Seq<char>) -> Option<Instruction> {
    match regex_captures(r"^(turn on|turn off|toggle) (\d+,\d+) through (\d+,\d+)$"@, line) {
        Some(groups) => instruction_of_groups(groups),
        None => None,
    }
}

impl Action {
    /// Reads `turn on`, `turn off` or `toggle`.
    pub fn from_str(s: &str) -> (r: Result<Action, ParseInstructionError>)
        ensures
            match action_named(s@) {
                Some(a) => r == Ok::<Action, ParseInstructionError>(a),
                None => r is Err,
            },
    {
        if same_text(s, "turn on") {
            Ok(Action::TurnOn)
        } else if same_text(s, "turn off") {
            Ok(Action::TurnOff)
        } else if same_text(s, "toggle") {
            Ok(Action::TOGGLE)
        } else {
            Err(ParseInstructionError)
        }
    }
}

impl Position {
    /// Reads a place of the form `12,34`.
    pub fn from_str(s: &str) -> (r: Result<Position, ParseInstructionError>)
        ensures
            match position_written(s@) {
                Some(p) => r == Ok::<Position, ParseInstructionError>(p),
                None => r is Err,
            },
    {
        let parts = split(s, ',');
        let ghost texts = pieces(s@, ',');
        let mut numbers: Vec<usize> = Vec::new();
        let mut i: usize = 0;
        while i < parts.len()
            invariant
                i <= parts.len(),
                texts == pieces(s@, ','),
                texts == piece_texts(parts@),
                texts.len() == parts.len(),
                numbers.len() == i,
                forall|j: int| 0 <= j < i ==> coordinate(#[trigger] texts[j]) == Some(numbers[j]),
            decreases parts.len() - i,
        {
            assert(texts[i as int] == parts[i as int]@);
            match parse_unsigned(parts[i].as_str(), usize::MAX as u64) {
                Some(v) => {
                    numbers.push(v as usize);
                },
                None => {
                    return Err(ParseInstructionError);
                },
            }
            i += 1;
        }
        if numbers.len() < 2 {
            return Err(ParseInstructionError);
        }
        Ok(Position(numbers[0], numbers[1]))
    }
}

impl Instruction {
    /// Reads an instruction from the groups of a matched line.
    pub fn from_captures(groups: &Vec<Option<String>>) -> (r: Option<Instruction>)
        ensures
            r == instruction_of_groups(groups_view(Some(*groups))->0),
    {
        if groups.len() < 4 {
            return None;
        }
        let (a, b, c) = match (group(groups, 1), group(groups, 2), group(groups, 3)) {
            (Some(a), Some(b), Some(c)) => (a, b, c),
            _ => {
                return None;
            },
        };
        match (Action::from_str(a), Position::from_str(b), Position::from_str(c)) {
            (Ok(action), Ok(start), Ok(end)) => Some(Instruction { action, start, end }),
            _ => None,
        }
    }

    /// Reads a line of the form `turn on 0,0 through 9,9`.
    pub fn from_str(s: &str) -> (r: Result<Instruction, ParseInstructionError>)
        ensures
            match instruction_of_line(s@) {
                Some(i) => r == Ok::<Instruction, ParseInstructionError>(i),
                None => r is Err,
            },
    {
        let found = match captures(
            r"^(turn on|turn off|toggle) (\d+,\d+) through (\d+,\d+)$",
            s,
        ) {
            Some(groups) => Instruction::from_captures(&groups),
            None => None,
        };
        match found {
            Some(i) => Ok(i),
            None => Err(ParseInstructionError),
        }
    }
}

/// The place in row `i` and column `j` lies in the rectangle of the
/// instruction.
pub open spec fn within(instruction: &Instruction, i: int, j: int) -> bool {
    instruction.start.1 <= i <= instruction.end.1 && instruction.start.0 <= j
        <= instruction.end.0
}

/// The rectangle of the instruction holds a place, and lies on a grid of the
/// given size.
pub open spec fn on_grid(instruction: &Instruction, size: nat) -> bool {
    (instruction.start.1 <= instruction.end.1 && instruction.start.0 <= instruction.end.0)
        ==> (instruction.end.1 < size && instruction.end.0 < size)
}

/// A light after an action that switches: on is 1, off is 0.
pub open spec fn switched(action: Action, light: u32) -> u32 {
    match action {
        Action::TurnOn => 1,
        Action::TurnOff => 0,
        Action::TOGGLE => if light == 0 {
            1
        } else {
            0
        },
    }
}

/// A light after an action that dims: on is one brighter, off is one darker
/// but not below 0, toggle is two brighter.
pub open spec fn dimmed(action: Action, light: u32) -> int {
    match action {
        Action::TurnOn => light + 1,
        Action::TurnOff => if light > 0 {
            light - 1
        } else {
            0
        },
        Action::TOGGLE => light + 2,
    }
}

/// The lights of the first `n` places of a row, added up.
pub open spec fn row_total(row: Seq<u32>, n: nat) -> nat
    decreases n,
{
    if n == 0 {
        0
    } else {
        row_total(row, (n - 1) as nat) + row[n - 1] as nat
    }
}

/// The lights of the first `n` rows, added up.
pub open spec fn rows_total(rows: Seq<Seq<u32>>, n: nat) -> nat
    decreases n,
{
    if n == 0 {
        0
    } else {
        rows_total(rows, (n - 1) as nat) + row_total(rows[n - 1], rows[n - 1].len())
    }
}

/// A square grid of lights, each a number.
pub struct Grid {
    grid: Vec<Vec<u32>>,
    size: usize,
}

impl Grid {
    /// The grid has `size` rows of `size` lights.
    pub closed spec fn wf(&self) -> bool {
        &&& self.grid.len() == self.size
        &&& forall|i: int| 0 <= i < self.size ==> (#[trigger] self.grid[i]).len() == self.size
    }

    /// The side of the grid.
    pub closed spec fn side(&self) -> nat {
        self.size as nat
    }

    /// The light in row `i` and column `j`.
    pub closed spec fn light(&self, i: int, j: int) -> u32 {
        self.grid[i][j]
    }

    /// The lights by row.
    pub closed spec fn rows(&self) -> Seq<Seq<u32>> {
        Seq::new(self.size as nat, |i: int| self.grid[i]@)
    }

    /// The rows are the lights.
    pub proof fn lemma_rows(&self)
        requires
            self.wf(),
        ensures
            self.rows().len() == self.side(),
            forall|i: int| 0 <= i < self.side() ==> (#[trigger] self.rows()[i]).len() == self.side(),
            forall|i: int, j: int|
                0 <= i < self.side() && 0 <= j < self.side() ==> self.rows()[i][j] == self.light(
                    i,
                    j,
                ),
    {
    }

    /// A grid of the given side with every light at 0.
    pub fn new(size: usize) -> (g: Grid)
        ensures
            g.wf(),
            g.side() == size,
            forall|i: int, j: int| 0 <= i < size && 0 <= j < size ==> g.light(i, j) == 0,
    {
        let mut grid: Vec<Vec<u32>> = Vec::new();
        let mut i: usize = 0;
        while i < size
            invariant
                i <= size,
                grid.len() == i,
                forall|a: int| 0 <= a < i ==> (#[trigger] grid[a]).len() == size,
                forall|a: int, b: int| 0 <= a < i && 0 <= b < size ==> (#[trigger] grid[a][b]) == 0,
            decreases size - i,
        {
            let mut row: Vec<u32> = Vec::new();
            let mut j: usize = 0;
            while j < size
                invariant
                    j <= size,
                    row.len() == j,
                    forall|b: int| 0 <= b < j ==> (#[trigger] row[b]) == 0,
                decreases size - j,
            {
                row.push(0);
                j += 1;
            }
            grid.push(row);
            i += 1;
        }
        Grid { grid, size }
    }

    /// All the lights added up.
    pub fn count(&self) -> (count: u32)
        requires
            self.wf(),
            rows_total(self.rows(), self.side()) <= u32::MAX,
        ensures
            count == rows_total(self.rows(), self.side()),
    {
        let ghost rows = self.rows();
        let mut count: u32 = 0;
        let mut i: usize = 0;
        while i < self.size
            invariant
                self.wf(),
                rows == self.rows(),
                i <= self.size,
                count == rows_total(rows, i as nat),
                rows_total(rows, self.size as nat) <= u32::MAX,
            decreases self.size - i,
        {
            proof {
                lemma_rows_total_grows(rows, (i + 1) as nat, self.size as nat);
            }
            let mut j: usize = 0;
            let ghost before = count;
            while j < self.size
                invariant
                    self.wf(),
                    rows == self.rows(),
                    i < self.size,
                    j <= self.size,
                    rows[i as int].len() == self.size,
                    count == before + row_total(rows[i as int], j as nat),
                    before + row_total(rows[i as int], self.size as nat) <= u32::MAX,
                decreases self.size - j,
            {
                proof {
                    lemma_row_total_grows(rows[i as int], (j + 1) as nat, self.size as nat);
                }
                count += self.grid[i][j];
                j += 1;
            }
            i += 1;
        }
        count
    }

    /// Whether all the lights added up are a `u32`.
    pub fn count_fits(&self) -> (r: bool)
        requires
            self.wf(),
        ensures
            r == (rows_total(self.rows(), self.side()) <= u32::MAX),
    {
        let ghost rows = self.rows();
        let mut count: u32 = 0;
        let mut i: usize = 0;
        while i < self.size
            invariant
                self.wf(),
                rows == self.rows(),
                i <= self.size,
                count == rows_total(rows, i as nat),
            decreases self.size - i,
        {
            let mut j: usize = 0;
            let ghost before = count;
            while j < self.size
                invariant
                    self.wf(),
                    rows == self.rows(),
                    i < self.size,
                    j <= self.size,
                    rows[i as int].len() == self.size,
                    before == rows_total(rows, i as nat),
                    count == before + row_total(rows[i as int], j as nat),
                decreases self.size - j,
            {
                match count.checked_add(self.grid[i][j]) {
                    Some(c) => {
                        count = c;
                    },
                    None => {
                        proof {
                            lemma_row_total_grows(rows[i as int], (j + 1) as nat, self.size as nat);
                            lemma_rows_total_grows(rows, (i + 1) as nat, self.size as nat);
                        }
                        return false;
                    },
                }
                j += 1;
            }
            i += 1;
        }
        true
    }

    /// Whether the rectangle of the instruction lies on this grid.
    pub fn can_apply(&self, instruction: &Instruction) -> (r: bool)
        ensures
            r == on_grid(instruction, self.side()),
    {
        instruction.start.1 > instruction.end.1 || instruction.start.0 > instruction.end.0 || (
        instruction.end.1 < self.size && instruction.end.0 < self.size)
    }

    /// The rectangle of the instruction lies on this grid, and no light in it
    /// would be dimmed beyond what a `u32` can say.
    pub open spec fn dims(&self, instruction: &Instruction) -> bool {
        &&& on_grid(instruction, self.side())
        &&& forall|i: int, j: int|
            0 <= i < self.side() && 0 <= j < self.side() && within(instruction, i, j) ==> dimmed(
                instruction.action,
                #[trigger] self.light(i, j),
            ) <= u32::MAX
    }

    /// Whether the rectangle of the instruction lies on this grid and no
    /// light in it would be dimmed beyond what a `u32` can say.
    pub fn can_apply_brightness(&self, instruction: &Instruction) -> (r: bool)
        requires
            self.wf(),
        ensures
            r == self.dims(instruction),
    {
        if instruction.start.1 > instruction.end.1 || instruction.start.0 > instruction.end.0 {
            return true;
        }
        if instruction.end.1 >= self.size || instruction.end.0 >= self.size {
            return false;
        }
        let mut i: usize = instruction.start.1;
        while i <= instruction.end.1
            invariant
                self.wf(),
                instruction.start.1 <= i <= instruction.end.1 + 1,
                instruction.start.0 <= instruction.end.0,
                instruction.end.1 < self.size,
                instruction.end.0 < self.size,
                forall|a: int, b: int|
                    0 <= a < i && 0 <= b < self.size && within(instruction, a, b) ==> dimmed(
                        instruction.action,
                        #[trigger] self.light(a, b),
                    ) <= u32::MAX,
            decreases instruction.end.1 + 1 - i,
        {
            let mut j: usize = instruction.start.0;
            while j <= instruction.end.0
                invariant
                    self.wf(),
                    instruction.start.1 <= i <= instruction.end.1,
                    instruction.start.0 <= j <= instruction.end.0 + 1,
                    instruction.end.1 < self.size,
                    instruction.end.0 < self.size,
                    forall|a: int, b: int|
                        (0 <= a < i || (a == i && 0 <= b < j)) && 0 <= b < self.size && within(
                            instruction,
                            a,
                            b,
                        ) ==> dimmed(instruction.action, #[trigger] self.light(a, b)) <= u32::MAX,
                decreases instruction.end.0 + 1 - j,
            {
                let light = self.grid[i][j];
                assert(light == self.light(i as int, j as int));
                let fits = match instruction.action {
                    Action::TurnOn => light < 0xffff_ffff,
                    Action::TurnOff => true,
                    Action::TOGGLE => light < 0xffff_fffe,
                };
                if !fits {
                    assert(within(instruction, i as int, j as int));
                    assert(dimmed(instruction.action, self.light(i as int, j as int)) > u32::MAX);
                    return false;
                }
                j += 1;
            }
            i += 1;
        }
        true
    }

    /// Switches the lights in the rectangle of the instruction.
    pub fn apply(&mut self, instruction: &Instruction)
        requires
            old(self).wf(),
            on_grid(instruction, old(self).side()),
        ensures
            final(self).wf(),
            final(self).side() == old(self).side(),
            forall|i: int, j: int|
                0 <= i < old(self).side() && 0 <= j < old(self).side() ==> final(self).light(i, j)
                    == if within(instruction, i, j) {
                    switched(instruction.action, old(self).light(i, j))
                } else {
                    old(self).light(i, j)
                },
    {
        if instruction.start.1 > instruction.end.1 || instruction.start.0 > instruction.end.0 {
            return ;
        }
        let ghost start = *self;
        let mut i: usize = instruction.start.1;
        while i <= instruction.end.1
            invariant
                self.wf(),
                self.size == start.size,
                instruction.start.1 <= i <= instruction.end.1 + 1,
                instruction.start.0 <= instruction.end.0,
                instruction.end.1 < self.size,
                instruction.end.0 < self.size,
                forall|a: int, b: int|
                    0 <= a < self.size && 0 <= b < self.size ==> #[trigger] self.light(a, b) == if a
                        < i && within(instruction, a, b) {
                        switched(instruction.action, start.light(a, b))
                    } else {
                        start.light(a, b)
                    },
            decreases instruction.end.1 + 1 - i,
        {
            let mut j: usize = instruction.start.0;
            while j <= instruction.end.0
                invariant
                    self.wf(),
                    self.size == start.size,
                    instruction.start.1 <= i <= instruction.end.1,
                    instruction.start.0 <= j <= instruction.end.0 + 1,
                    instruction.end.1 < self.size,
                    instruction.end.0 < self.size,
                    forall|a: int, b: int|
                        0 <= a < self.size && 0 <= b < self.size ==> #[trigger] self.light(a, b)
                            == if (a < i || (a == i && b < j)) && within(instruction, a, b) {
                            switched(instruction.action, start.light(a, b))
                        } else {
                            start.light(a, b)
                        },
                decreases instruction.end.0 + 1 - j,
            {
                let light = self.grid[i][j];
                assert(light == self.light(i as int, j as int));
                let next: u32 = match instruction.action {
                    Action::TurnOn => 1,
                    Action::TurnOff => 0,
                    Action::TOGGLE => if light == 0 {
                        1
                    } else {
                        0
                    },
                };
                let ghost before = *self;
                self.grid[i][j] = next;
                assert(forall|a: int, b: int|
                    0 <= a < self.size && 0 <= b < self.size ==> #[trigger] self.light(a, b) == if a
                        == i && b == j {
                        next
                    } else {
                        before.light(a, b)
                    });
                j += 1;
            }
            i += 1;
        }
    }

    /// Dims the lights in the rectangle of the instruction.
    pub fn apply_brightness(&mut self, instruction: &Instruction)
        requires
            old(self).wf(),
            old(self).dims(instruction),
        ensures
            final(self).wf(),
            final(self).side() == old(self).side(),
            forall|i: int, j: int|
                0 <= i < old(self).side() && 0 <= j < old(self).side() ==> final(self).light(i, j)
                    == if within(instruction, i, j) {
                    dimmed(instruction.action, old(self).light(i, j))
                } else {
                    old(self).light(i, j) as int
                },
    {
        if instruction.start.1 > instruction.end.1 || instruction.start.0 > instruction.end.0 {
            return ;
        }
        let ghost start = *self;
        let mut i: usize = instruction.start.1;
        while i <= instruction.end.1
            invariant
                self.wf(),
                self.size == start.size,
                instruction.start.1 <= i <= instruction.end.1 + 1,
                instruction.start.0 <= instruction.end.0,
                instruction.end.1 < self.size,
                instruction.end.0 < self.size,
                forall|a: int, b: int|
                    0 <= a < start.size && 0 <= b < start.size && within(instruction, a, b)
                        ==> dimmed(instruction.action, #[trigger] start.light(a, b)) <= u32::MAX,
                forall|a: int, b: int|
                    0 <= a < self.size && 0 <= b < self.size ==> #[trigger] self.light(a, b) == if a
                        < i && within(instruction, a, b) {
                        dimmed(instruction.action, start.light(a, b))
                    } else {
                        start.light(a, b) as int
                    },
            decreases instruction.end.1 + 1 - i,
        {
            let mut j: usize = instruction.start.0;
            while j <= instruction.end.0
                invariant
                    self.wf(),
                    self.size == start.size,
                    instruction.start.1 <= i <= instruction.end.1,
                    instruction.start.0 <= j <= instruction.end.0 + 1,
                    instruction.end.1 < self.size,
                    instruction.end.0 < self.size,
                    forall|a: int, b: int|
                        0 <= a < start.size && 0 <= b < start.size && within(instruction, a, b)
                            ==> dimmed(instruction.action, #[trigger] start.light(a, b)) <= u32::MAX,
                    forall|a: int, b: int|
                        0 <= a < self.size && 0 <= b < self.size ==> #[trigger] self.light(a, b)
                            == if (a < i || (a == i && b < j)) && within(instruction, a, b) {
                            dimmed(instruction.action, start.light(a, b))
                        } else {
                            start.light(a, b) as int
                        },
                decreases instruction.end.0 + 1 - j,
            {
                let light = self.grid[i][j];
                assert(light == self.light(i as int, j as int));
                let next: u32 = match instruction.action {
                    Action::TurnOn => light + 1,
                    Action::TurnOff => if light > 0 {
                        light - 1
                    } else {
                        0
                    },
                    Action::TOGGLE => light + 2,
                };
                let ghost before = *self;
                self.grid[i][j] = next;
                assert(forall|a: int, b: int|
                    0 <= a < self.size && 0 <= b < self.size ==> #[trigger] self.light(a, b) == if a
                        == i && b == j {
                        next
                    } else {
                        before.light(a, b)
                    });
                j += 1;
            }
            i += 1;
        }
    }
}

proof fn lemma_row_total_grows(row: Seq<u32>, n: nat, m: nat)
    requires
        n <= m,
    ensures
        row_total(row, n) <= row_total(row, m),
    decreases m,
{
    if n < m {
        lemma_row_total_grows(row, n, (m - 1) as nat);
    }
}

proof fn lemma_rows_total_grows(rows: Seq<Seq<u32>>, n: nat, m: nat)
    requires
        n <= m,
    ensures
        rows_total(rows, n) <= rows_total(rows, m),
    decreases m,
{
    if n < m {
        lemma_rows_total_grows(rows, n, (m - 1) as nat);
    }
}

} // verus!
