//! Paper and ribbon for boxes whose measures come as `2x3x4`.

use vstd::prelude::*;
use vstd::string::*;
use crate::text::parse_unsigned;
use crate::text::pieces;
use crate::text::split;
use crate::text::unsigned_decimal;

verus! {

/// A box.
#[derive(Clone, Copy, Debug, PartialEq, Eq, Structural)]
pub struct Rectangular {
    pub length: usize,
    pub width: usize,
    pub height: usize,
}

/// Why the measures of a box could not be read; each holds the line.
#[derive(Debug, PartialEq, Eq)]
pub enum CalculateError {
    /// The line is not three pieces with `x` between them.
    InputFormatError(String),
    /// A piece is not a number that fits.
    ParseStringError(String),
}

/// The smaller of two numbers.
pub open spec fn least(a: int, b: int) -> int {
    if a <= b {
        a
    } else {
        b
    }
}

/// The paper for a box: its surface, and the smallest side once more.
pub open spec fn paper(l: int, w: int, h: int) -> int {
    2 * (l * w + l * h + w * h) + least(w * h, least(l * w, l * h))
}

/// The two smaller of three edges, added up.
pub open spec fn two_smaller(l: int, w: int, h: int) -> int {
    if l >= w && l >= h {
        w + h
    } else if w >= l && w >= h {
        l + h
    } else {
        l + w
    }
}

/// The ribbon for a box: its volume for the bow, and the smallest way round.
pub open spec fn ribbon(l: int, w: int, h: int) -> int {
    l * h * w + 2 * two_smaller(l, w, h)
}

impl Rectangular {
    /// The paper for this box.
    pub fn calculate_wrapping_paper(&self) -> (r: usize)
        requires
            paper(self.length as int, self.width as int, self.height as int) <= usize::MAX,
        ensures
            r == paper(self.length as int, self.width as int, self.height as int),
    {
        let ghost (l, w, h) = (self.length as int, self.width as int, self.height as int);
        proof {
            assert(0 <= l * w && 0 <= l * h && 0 <= w * h) by (nonlinear_arith)
                requires
                    0 <= l,
                    0 <= w,
                    0 <= h,
            ;
        }
        let a = self.length * self.width;
        let b = self.length * self.height;
        let c = self.width * self.height;
        let ab = if a <= b {
            a
        } else {
            b
        };
        let r = if c <= ab {
            c
        } else {
            ab
        };
        2 * (a + b + c) + r
    }

    /// The ribbon for this box.
    pub fn calculate_ribbon(&self) -> (r: usize)
        requires
            self.length * self.height <= usize::MAX,
            ribbon(self.length as int, self.width as int, self.height as int) <= usize::MAX,
        ensures
            r == ribbon(self.length as int, self.width as int, self.height as int),
    {
        let ghost (l, w, h) = (self.length as int, self.width as int, self.height as int);
        proof {
            assert(0 <= l * h * w) by (nonlinear_arith)
                requires
                    0 <= l,
                    0 <= w,
                    0 <= h,
            ;
        }
        let bow = self.length * self.height * self.width;
        let round = if self.length >= self.width && self.length >= self.height {
            self.width + self.height
        } else if self.width >= self.length && self.width >= self.height {
            self.length + self.height
        } else {
            self.length + self.width
        };
        bow + 2 * round
    }
}

/// What a line says: a box, or which of the two errors.
pub enum Reading {
    Measures(Rectangular),
    BadFormat,
    BadNumber,
}

/// The number that a piece writes, where it is a `usize`.
pub open spec fn edge(piece: Seq<char>) -> Option<usize> {
    match unsigned_decimal(piece) {
        Some(v) => if v <= usize::MAX {
            Some(v as usize)
        } else {
            None
        },
        None => None,
    }
}

/// What the line `s` says: it must be three pieces with `x` between them,
/// each a number that is a `usize`.
pub open spec fn reading(s: Seq<char>) -> Reading {
    let parts = pieces(s, 'x');
    if parts.len() != 3 {
        Reading::BadFormat
    } else {
        match (edge(parts[0]), edge(parts[1]), edge(parts[2])) {
            (Some(length), Some(width), Some(height)) => Reading::Measures(
                Rectangular { length, width, height },
            ),
            _ => Reading::BadNumber,
        }
    }
}

/// The result that stands for a reading of the line `s`.
pub open spec fn is_reading(s: Seq<char>, r: Result<Rectangular, CalculateError>) -> bool {
    match reading(s) {
        Reading::Measures(b) => r == Ok::<Rectangular, CalculateError>(b),
        Reading::BadFormat => r matches Err(CalculateError::InputFormatError(t)) && t@ == s,
        Reading::BadNumber => r matches Err(CalculateError::ParseStringError(t)) && t@ == s,
    }
}

fn edge_of(piece: &str) -> (r: Option<usize>)
    ensures
        r == edge(piece@),
{
    match parse_unsigned(piece, usize::MAX as u64) {
        Some(v) => Some(v as usize),
        None => None,
    }
}

impl Rectangular {
    /// Reads a line of the form `2x3x4`.
    pub fn from_str(s: &str) -> (r: Result<Rectangular, CalculateError>)
        ensures
            is_reading(s@, r),
    {
        let splitted = split(s, 'x');
        if splitted.len() != 3 {
            return Err(CalculateError::InputFormatError(String::from_str(s)));
        }
        match (
            edge_of(splitted[0].as_str()),
            edge_of(splitted[1].as_str()),
            edge_of(splitted[2].as_str()),
        ) {
            (Some(length), Some(width), Some(height)) => Ok(Rectangular { length, width, height }),
            _ => Err(CalculateError::ParseStringError(String::from_str(s))),
        }
    }
}

impl Rectangular {
    /// The paper for this box, where it is a `usize`.
    pub fn checked_wrapping_paper(&self) -> (r: Option<usize>)
        ensures
            r == if paper(self.length as int, self.width as int, self.height as int)
                <= usize::MAX {
                Some(paper(self.length as int, self.width as int, self.height as int) as usize)
            } else {
                None
            },
    {
        let ghost (l, w, h) = (self.length as int, self.width as int, self.height as int);
        proof {
            assert(0 <= l * w && 0 <= l * h && 0 <= w * h) by (nonlinear_arith)
                requires
                    0 <= l,
                    0 <= w,
                    0 <= h,
            ;
        }
        let a = match self.length.checked_mul(self.width) {
            Some(a) => a,
            None => {
                return None;
            },
        };
        let b = match self.length.checked_mul(self.height) {
            Some(b) => b,
            None => {
                return None;
            },
        };
        let c = match self.width.checked_mul(self.height) {
            Some(c) => c,
            None => {
                return None;
            },
        };
        let ab = if a <= b {
            a
        } else {
            b
        };
        let least = if c <= ab {
            c
        } else {
            ab
        };
        let two = match a.checked_add(b) {
            Some(s) => s,
            None => {
                return None;
            },
        };
        let three = match two.checked_add(c) {
            Some(s) => s,
            None => {
                return None;
            },
        };
        let surface = match three.checked_mul(2) {
            Some(s) => s,
            None => {
                return None;
            },
        };
        surface.checked_add(least)
    }

    /// The ribbon for this box, where it and the side that its bow is worked
    /// out from, length times height, are `usize`.
    pub fn checked_ribbon(&self) -> (r: Option<usize>)
        ensures
            r == if self.length * self.height <= usize::MAX && ribbon(
                self.length as int,
                self.width as int,
                self.height as int,
            ) <= usize::MAX {
                Some(ribbon(self.length as int, self.width as int, self.height as int) as usize)
            } else {
                None
            },
    {
        let ghost (l, w, h) = (self.length as int, self.width as int, self.height as int);
        proof {
            assert(0 <= l * h * w && 0 <= l * h) by (nonlinear_arith)
                requires
                    0 <= l,
                    0 <= w,
                    0 <= h,
            ;
        }
        let side = match self.length.checked_mul(self.height) {
            Some(s) => s,
            None => {
                return None;
            },
        };
        let bow = match side.checked_mul(self.width) {
            Some(b) => b,
            None => {
                return None;
            },
        };
        let (x, y) = if self.length >= self.width && self.length >= self.height {
            (self.width, self.height)
        } else if self.width >= self.length && self.width >= self.height {
            (self.length, self.height)
        } else {
            (self.length, self.width)
        };
        let round = match x.checked_add(y) {
            Some(r) => r,
            None => {
                return None;
            },
        };
        let twice = match round.checked_mul(2) {
            Some(t) => t,
            None => {
                return None;
            },
        };
        bow.checked_add(twice)
    }
}

/// The texts of a list of lines.
pub open spec fn lines_of(input: Seq<&str>) -> Seq<Seq<char>> {
    input.map_values(|s: &str| s@)
}

/// Every one of the first `n` lines says a box.
pub open spec fn all_read(lines: Seq<Seq<char>>, n: int) -> bool {
    forall|i: int| 0 <= i < n ==> (#[trigger] reading(lines[i])) is Measures
}

/// The paper for the boxes of the first `n` lines.
pub open spec fn paper_total(lines: Seq<Seq<char>>, n: nat) -> int
    decreases n,
{
    if n == 0 {
        0
    } else {
        paper_total(lines, (n - 1) as nat) + match reading(lines[n - 1]) {
            Reading::Measures(b) => paper(b.length as int, b.width as int, b.height as int),
            _ => 0,
        }
    }
}

/// The ribbon for the boxes of the first `n` lines.
pub open spec fn ribbon_total(lines: Seq<Seq<char>>, n: nat) -> int
    decreases n,
{
    if n == 0 {
        0
    } else {
        ribbon_total(lines, (n - 1) as nat) + match reading(lines[n - 1]) {
            Reading::Measures(b) => ribbon(b.length as int, b.width as int, b.height as int),
            _ => 0,
        }
    }
}

/// What adding up over the lines returns: the error of the first line that
/// says no box, else the total `sum`.
pub open spec fn is_total(lines: Seq<Seq<char>>, sum: int, r: Result<usize, CalculateError>) -> bool {
    match r {
        Ok(t) => all_read(lines, lines.len() as int) && t == sum,
        Err(e) => exists|i: int|
            {
                &&& 0 <= i < lines.len()
                &&& all_read(lines, i)
                &&& !(#[trigger] reading(lines[i]) is Measures)
                &&& is_reading(lines[i], Err(e))
            },
    }
}

proof fn lemma_paper_positive(l: int, w: int, h: int)
    requires
        0 <= l,
        0 <= w,
        0 <= h,
    ensures
        0 <= paper(l, w, h),
{
    assert(0 <= l * w && 0 <= l * h && 0 <= w * h) by (nonlinear_arith)
        requires
            0 <= l,
            0 <= w,
            0 <= h,
    ;
}

proof fn lemma_ribbon_positive(l: int, w: int, h: int)
    requires
        0 <= l,
        0 <= w,
        0 <= h,
    ensures
        0 <= ribbon(l, w, h),
        0 <= l * h,
        l * h <= ribbon(l, w, h) || w == 0,
{
    assert(0 <= l * h * w && 0 <= l * h && (w == 0 || l * h <= l * h * w)) by (nonlinear_arith)
        requires
            0 <= l,
            0 <= w,
            0 <= h,
    ;
}

proof fn lemma_paper_total_positive(lines: Seq<Seq<char>>, n: nat)
    ensures
        0 <= paper_total(lines, n),
    decreases n,
{
    if n > 0 {
        lemma_paper_total_positive(lines, (n - 1) as nat);
        match reading(lines[n - 1]) {
            Reading::Measures(b) => {
                lemma_paper_positive(b.length as int, b.width as int, b.height as int);
            },
            _ => {},
        }
    }
}

proof fn lemma_ribbon_total_positive(lines: Seq<Seq<char>>, n: nat)
    ensures
        0 <= ribbon_total(lines, n),
    decreases n,
{
    if n > 0 {
        lemma_ribbon_total_positive(lines, (n - 1) as nat);
        match reading(lines[n - 1]) {
            Reading::Measures(b) => {
                lemma_ribbon_positive(b.length as int, b.width as int, b.height as int);
            },
            _ => {},
        }
    }
}

/// Adding up the paper stays within `usize`: the total of every run of lines
/// from the first on that all say a box.
pub open spec fn paper_adds_up(lines: Seq<Seq<char>>) -> bool {
    forall|n: nat|
        n <= lines.len() && all_read(lines, n as int) ==> #[trigger] paper_total(lines, n)
            <= usize::MAX
}

proof fn lemma_paper_total_grows(lines: Seq<Seq<char>>, n: nat, m: nat)
    requires
        n <= m,
    ensures
        paper_total(lines, n) <= paper_total(lines, m),
    decreases m,
{
    if n < m {
        lemma_paper_total_grows(lines, n, (m - 1) as nat);
        match reading(lines[m - 1]) {
            Reading::Measures(b) => {
                lemma_paper_positive(b.length as int, b.width as int, b.height as int);
            },
            _ => {},
        }
    }
}

/// Whether the paper for all the boxes can be added up within `usize`.
pub fn wrappers_fit(input: &Vec<&str>) -> (r: bool)
    ensures
        r == paper_adds_up(lines_of(input@)),
{
    let ghost lines = lines_of(input@);
    let mut total: usize = 0;
    let mut i: usize = 0;
    while i < input.len()
        invariant
            i <= input.len(),
            lines == lines_of(input@),
            all_read(lines, i as int),
            total == paper_total(lines, i as nat),
        decreases input.len() - i,
    {
        let rec = match Rectangular::from_str(input[i]) {
            Ok(rec) => rec,
            Err(_) => {
                proof {
                    assert forall|n: nat| n <= lines.len() && all_read(lines, n as int) implies
                        #[trigger] paper_total(lines, n) <= usize::MAX by {
                        if n > i {
                            assert(reading(lines[i as int]) is Measures);
                        }
                        lemma_paper_total_grows(lines, n, i as nat);
                    }
                }
                return true;
            },
        };
        proof {
            lemma_paper_total_positive(lines, i as nat);
            lemma_paper_positive(rec.length as int, rec.width as int, rec.height as int);
            assert(all_read(lines, i + 1));
        }
        let sum = match rec.checked_wrapping_paper() {
            Some(p) => total.checked_add(p),
            None => None,
        };
        match sum {
            Some(t) => {
                total = t;
            },
            None => {
                assert(paper_total(lines, (i + 1) as nat) > usize::MAX);
                return false;
            },
        }
        i += 1;
    }
    proof {
        assert forall|n: nat| n <= lines.len() && all_read(lines, n as int) implies
            #[trigger] paper_total(lines, n) <= usize::MAX by {
            lemma_paper_total_grows(lines, n, i as nat);
        }
    }
    true
}

/// The paper for all the boxes, one to a line.
pub fn calculate_total_wrappers(input: &Vec<&str>) -> (r: Result<usize, CalculateError>)
    requires
        paper_adds_up(lines_of(input@)),
    ensures
        is_total(lines_of(input@), paper_total(lines_of(input@), input@.len()), r),
{
    let ghost lines = lines_of(input@);
    let mut total_wrapper: usize = 0;
    let mut i: usize = 0;
    while i < input.len()
        invariant
            i <= input.len(),
            lines == lines_of(input@),
            paper_adds_up(lines),
            all_read(lines, i as int),
            total_wrapper == paper_total(lines, i as nat),
        decreases input.len() - i,
    {
        let rec = match Rectangular::from_str(input[i]) {
            Ok(rec) => rec,
            Err(e) => {
                return Err(e);
            },
        };
        proof {
            assert(paper_total(lines, (i + 1) as nat) <= usize::MAX);
            lemma_paper_total_positive(lines, i as nat);
            lemma_paper_positive(rec.length as int, rec.width as int, rec.height as int);
        }
        total_wrapper += rec.calculate_wrapping_paper();
        i += 1;
    }
    Ok(total_wrapper)
}

/// Every box of the first `n` lines has a bow that can be worked out: its
/// length times its height is a `usize`.
pub open spec fn bows_fit(lines: Seq<Seq<char>>, n: int) -> bool {
    forall|i: int|
        0 <= i < n ==> ((#[trigger] reading(lines[i])) matches Reading::Measures(b) ==> b.length
            * b.height <= usize::MAX)
}

/// Adding up the ribbon stays within `usize`: the bow of every box and the
/// total of every run of lines from the first on that all say a box.
pub open spec fn ribbon_adds_up(lines: Seq<Seq<char>>) -> bool {
    forall|n: nat|
        n <= lines.len() && all_read(lines, n as int) ==> #[trigger] ribbon_total(lines, n)
            <= usize::MAX && bows_fit(lines, n as int)
}

proof fn lemma_ribbon_total_grows(lines: Seq<Seq<char>>, n: nat, m: nat)
    requires
        n <= m,
    ensures
        ribbon_total(lines, n) <= ribbon_total(lines, m),
    decreases m,
{
    if n < m {
        lemma_ribbon_total_grows(lines, n, (m - 1) as nat);
        match reading(lines[m - 1]) {
            Reading::Measures(b) => {
                lemma_ribbon_positive(b.length as int, b.width as int, b.height as int);
            },
            _ => {},
        }
    }
}

/// Whether the ribbon for all the boxes can be added up within `usize`.
pub fn ribbons_fit(input: &Vec<&str>) -> (r: bool)
    ensures
        r == ribbon_adds_up(lines_of(input@)),
{
    let ghost lines = lines_of(input@);
    let mut total: usize = 0;
    let mut i: usize = 0;
    while i < input.len()
        invariant
            i <= input.len(),
            lines == lines_of(input@),
            all_read(lines, i as int),
            bows_fit(lines, i as int),
            total == ribbon_total(lines, i as nat),
        decreases input.len() - i,
    {
        let rec = match Rectangular::from_str(input[i]) {
            Ok(rec) => rec,
            Err(_) => {
                proof {
                    assert forall|n: nat| n <= lines.len() && all_read(lines, n as int) implies
                        #[trigger] ribbon_total(lines, n) <= usize::MAX && bows_fit(
                        lines,
                        n as int,
                    ) by {
                        if n > i {
                            assert(reading(lines[i as int]) is Measures);
                        }
                        lemma_ribbon_total_grows(lines, n, i as nat);
                    }
                }
                return true;
            },
        };
        proof {
            lemma_ribbon_total_positive(lines, i as nat);
            lemma_ribbon_positive(rec.length as int, rec.width as int, rec.height as int);
            assert(all_read(lines, i + 1));
        }
        let sum = match rec.checked_ribbon() {
            Some(p) => total.checked_add(p),
            None => None,
        };
        match sum {
            Some(t) => {
                total = t;
            },
            None => {
                assert(!(ribbon_total(lines, (i + 1) as nat) <= usize::MAX && bows_fit(
                    lines,
                    i + 1,
                )));
                return false;
            },
        }
        i += 1;
    }
    proof {
        assert forall|n: nat| n <= lines.len() && all_read(lines, n as int) implies
            #[trigger] ribbon_total(lines, n) <= usize::MAX && bows_fit(lines, n as int) by {
            lemma_ribbon_total_grows(lines, n, i as nat);
        }
    }
    true
}

/// The ribbon for all the boxes, one to a line.
pub fn calculate_total_ribbons(input: &Vec<&str>) -> (r: Result<usize, CalculateError>)
    requires
        ribbon_adds_up(lines_of(input@)),
    ensures
        is_total(lines_of(input@), ribbon_total(lines_of(input@), input@.len()), r),
{
    let ghost lines = lines_of(input@);
    let mut total: usize = 0;
    let mut i: usize = 0;
    while i < input.len()
        invariant
            i <= input.len(),
            lines == lines_of(input@),
            ribbon_adds_up(lines),
            all_read(lines, i as int),
            total == ribbon_total(lines, i as nat),
        decreases input.len() - i,
    {
        let rec = match Rectangular::from_str(input[i]) {
            Ok(rec) => rec,
            Err(e) => {
                return Err(e);
            },
        };
        proof {
            assert(ribbon_total(lines, (i + 1) as nat) <= usize::MAX);
            lemma_ribbon_total_positive(lines, i as nat);
            lemma_ribbon_positive(rec.length as int, rec.width as int, rec.height as int);
        }
        total += rec.calculate_ribbon();
        i += 1;
    }
    Ok(total)
}

} // verus!
