//! Seating guests around a table so that the happiness they state about
//! their neighbours, added up, is greatest.

use vstd::prelude::*;
use vstd::string::*;
use crate::optimizer::defined_before;
use crate::optimizer::improves;
use crate::optimizer::optimize;
use crate::optimizer::Direction;
use crate::optimizer::EngineError;
use crate::optimizer::Scoring;
use crate::ordering::lemma_factorial_positive;
use crate::ordering::lemma_orderings_count;
use crate::ordering::lemma_orderings_permute;
use crate::ordering::lemma_orderings_width;
use crate::ordering::orderings;
use crate::ordering::permutations;
use crate::pattern::captures;
use crate::pattern::group;
use crate::pattern::group_text;
use crate::pattern::groups_view;
use crate::pattern::regex_captures;
use crate::roster::enroll;
use crate::roster::enrolled;
use crate::roster::find;
use crate::roster::handle_of;
use crate::roster::lemma_handle_stays;
use crate::roster::texts;
use crate::scoring::cycle_missing;
use crate::scoring::cycle_value;
use crate::scoring::cyclic_sum;
use crate::scoring::lemma_cycle_fits;
use crate::scoring::weights_within;
use crate::scoring::CyclicSum;
use crate::table::WeightTable;
use crate::text::parse_error;
use crate::text::parse_signed;
use crate::text::same_text;
use crate::text::signed_decimal;
use crate::text::ParseError;

verus! {

/// What one guest states about sitting next to another.
#[derive(Debug, PartialEq, Eq)]
pub struct Survey {
    pub from: String,
    pub to: String,
    pub happiness: i32,
}

/// The statement that the groups of a matched line spell out, as the texts of
/// the two names and the happiness: a loss counts negative.
pub open spec fn survey_of_groups(groups: Seq<Option<Seq<char>>>) -> Option<
    (Seq<char>, Seq<char>, int),
> {
    if groups.len() < 5 {
        None
    } else {
        match (
            group_text(groups, 1),
            group_text(groups, 2),
            group_text(groups, 3),
            group_text(groups, 4),
        ) {
            (Some(from), Some(verb), Some(amount), Some(to)) => match signed_decimal(amount) {
                Some(h) => {
                    let happiness = if verb == "lose"@ {
                        -h
                    } else {
                        h
                    };
                    if i32::MIN <= h <= i32::MAX && happiness <= i32::MAX {
                        Some((from, to, happiness))
                    } else {
                        None
                    }
                },
                None => None,
            },
            _ => None,
        }
    }
}

/// The statement that a line spells out, going by what the pattern finds in
/// it.
pub open spec fn survey_of_line(line: Seq<char>) -> Option<(Seq<char>, Seq<char>, int)> {
    match regex_captures(
        r"(\w+) would (\w+) (\d+) happiness units by sitting next to (\w+).$"@,
        line,
    ) {
        Some(groups) => survey_of_groups(groups),
        None => None,
    }
}

impl Survey {
    /// The names and the happiness of a statement.
    pub open spec fn view(&self) -> (Seq<char>, Seq<char>, int) {
        (self.from@, self.to@, self.happiness as int)
    }

    /// Reads a statement from the groups of a matched line.
    pub fn from_captures(groups: &Vec<Option<String>>) -> (r: Option<Survey>)
        ensures
            match survey_of_groups(groups_view(Some(*groups))->0) {
                Some(s) => r matches Some(survey) && survey@ == s,
                None => r is None,
            },
    {
        if groups.len() < 5 {
            return None;
        }
        let (from, verb, amount, to) = match (
            group(groups, 1),
            group(groups, 2),
            group(groups, 3),
            group(groups, 4),
        ) {
            (Some(a), Some(b), Some(c), Some(d)) => (a, b, c, d),
            _ => {
                return None;
            },
        };
        let h: i64 = match parse_signed(amount, -0x8000_0000, 0x7fff_ffff) {
            Some(h) => h,
            None => {
                return None;
            },
        };
        let happiness: i64 = if same_text(verb, "lose") {
            -h
        } else {
            h
        };
        if happiness > 0x7fff_ffff {
            return None;
        }
        Some(
            Survey {
                from: String::from_str(from),
                to: String::from_str(to),
                happiness: happiness as i32,
            },
        )
    }

    /// Reads a line of the form
    /// `A would gain 5 happiness units by sitting next to B.`
    pub fn from_str(s: &str) -> (r: Result<Survey, ParseError>)
        ensures
            match survey_of_line(s@) {
                Some(v) => r matches Ok(survey) && survey@ == v,
                None => r matches Err(e) && e.message@ == "puzzle input: \""@ + s@
                    + "\" is not in valid format"@,
            },
    {
        let found = match captures(
            r"(\w+) would (\w+) (\d+) happiness units by sitting next to (\w+).$",
            s,
        ) {
            Some(groups) => Survey::from_captures(&groups),
            None => None,
        };
        match found {
            Some(survey) => Ok(survey),
            None => Err(parse_error("puzzle input: \"", s, "\" is not in valid format")),
        }
    }
}

/// The names that the statements mention, each once, in the order in which
/// they first come up.
pub open spec fn mentioned(surveys: Seq<Survey>) -> Seq<Seq<char>>
    decreases surveys.len(),
{
    if surveys.len() == 0 {
        Seq::empty()
    } else {
        enrolled(enrolled(mentioned(surveys.drop_last()), surveys.last().from@), surveys.last().to@)
    }
}

/// Everyone: the names that the statements mention, and `Me`.
pub open spec fn everyone(surveys: Seq<Survey>) -> Seq<Seq<char>> {
    enrolled(mentioned(surveys), "Me"@)
}

/// The list with `h` at its end, unless it holds it already.
pub open spec fn joined(handles: Seq<usize>, h: usize) -> Seq<usize> {
    if handles.contains(h) {
        handles
    } else {
        handles.push(h)
    }
}

/// The guests: the handles of those who state something, each once, in the
/// order in which they first do.
pub open spec fn hosts(surveys: Seq<Survey>, names: Seq<Seq<char>>) -> Seq<usize>
    decreases surveys.len(),
{
    if surveys.len() == 0 {
        Seq::empty()
    } else {
        joined(hosts(surveys.drop_last(), names), handle_of(names, surveys.last().from@) as usize)
    }
}

/// What `a` states about `b`: the happiness of the last statement of `a`
/// about `b`.
pub open spec fn stated(surveys: Seq<Survey>, names: Seq<Seq<char>>, a: int, b: int) -> Option<i64>
    decreases surveys.len(),
{
    if surveys.len() == 0 {
        None
    } else {
        let last = surveys.last();
        if handle_of(names, last.from@) == a && handle_of(names, last.to@) == b {
            Some(last.happiness as i64)
        } else {
            stated(surveys.drop_last(), names, a, b)
        }
    }
}

/// The happiness of `a` next to `b` once `me` has joined, where `before` is
/// what was stated and `row` says whether `a` had stated anything at all:
/// everyone who had is indifferent to `me`, and `me` is indifferent to every
/// guest and states nothing about anyone else.
pub open spec fn with_me(
    before: Option<i64>,
    row: bool,
    guests: Seq<usize>,
    me: usize,
    a: int,
    b: int,
) -> Option<i64> {
    if a == me {
        if 0 <= b <= usize::MAX && guests.contains(b as usize) {
            Some(0)
        } else {
            None
        }
    } else if b == me && row {
        Some(0)
    } else {
        before
    }
}

/// Every name of the statements is on the list.
pub open spec fn all_listed(surveys: Seq<Survey>, names: Seq<Seq<char>>) -> bool {
    forall|i: int|
        0 <= i < surveys.len() ==> names.contains((#[trigger] surveys[i]).from@) && names.contains(
            surveys[i].to@,
        )
}

proof fn lemma_mentioned(surveys: Seq<Survey>)
    ensures
        mentioned(surveys).no_duplicates(),
        all_listed(surveys, mentioned(surveys)),
    decreases surveys.len(),
{
    if surveys.len() > 0 {
        let rest = surveys.drop_last();
        let last = surveys.last();
        lemma_mentioned(rest);
        let n0 = mentioned(rest);
        let n1 = enrolled(n0, last.from@);
        let n2 = enrolled(n1, last.to@);
        lemma_enrolled(n0, last.from@);
        lemma_enrolled(n1, last.to@);
        assert forall|i: int| 0 <= i < surveys.len() implies n2.contains(
            (#[trigger] surveys[i]).from@,
        ) && n2.contains(surveys[i].to@) by {
            if i < rest.len() {
                assert(rest[i] == surveys[i]);
                lemma_handle_stays(n0, surveys[i].from@, last.from@);
                lemma_handle_stays(n1, surveys[i].from@, last.to@);
                lemma_handle_stays(n0, surveys[i].to@, last.from@);
                lemma_handle_stays(n1, surveys[i].to@, last.to@);
            } else {
                lemma_handle_stays(n1, last.from@, last.to@);
            }
        }
    }
}

/// A list of distinct names with one more enrolled holds that name and is
/// still a list of distinct names.
proof fn lemma_enrolled(names: Seq<Seq<char>>, name: Seq<char>)
    requires
        names.no_duplicates(),
    ensures
        enrolled(names, name).no_duplicates(),
        enrolled(names, name).contains(name),
{
    let grown = enrolled(names, name);
    if !names.contains(name) {
        assert(grown[names.len() as int] == name);
        assert forall|a: int, b: int| 0 <= a < grown.len() && 0 <= b < grown.len() && a != b
            implies grown[a] != grown[b] by {
            if a == names.len() {
                assert(grown[b] == names[b]);
            } else if b == names.len() {
                assert(grown[a] == names[a]);
            }
        }
    }
}

proof fn lemma_stated_small(surveys: Seq<Survey>, names: Seq<Seq<char>>, a: int, b: int)
    ensures
        stated(surveys, names, a, b) matches Some(w) ==> i32::MIN <= w <= i32::MAX,
    decreases surveys.len(),
{
    if surveys.len() > 0 {
        lemma_stated_small(surveys.drop_last(), names, a, b);
    }
}

/// `a` states something about someone.
pub open spec fn speaks(surveys: Seq<Survey>, names: Seq<Seq<char>>, a: int) -> bool {
    exists|b: int| (#[trigger] stated(surveys, names, a, b)) is Some
}

/// Those who state something are the guests.
pub proof fn lemma_hosts_have_rows(surveys: Seq<Survey>, names: Seq<Seq<char>>, a: int)
    requires
        all_listed(surveys, names),
        names.len() <= usize::MAX,
        0 <= a < names.len(),
    ensures
        speaks(surveys, names, a) == hosts(surveys, names).contains(a as usize),
    decreases surveys.len(),
{
    if surveys.len() > 0 {
        let rest = surveys.drop_last();
        let last = surveys.last();
        let from = handle_of(names, last.from@);
        let to = handle_of(names, last.to@);
        let before = hosts(rest, names);
        let after = hosts(surveys, names);
        assert(all_listed(rest, names)) by {
            assert forall|i: int| 0 <= i < rest.len() implies names.contains(
                (#[trigger] rest[i]).from@,
            ) && names.contains(rest[i].to@) by {
                assert(rest[i] == surveys[i]);
            }
        }
        lemma_hosts_have_rows(rest, names, a);
        assert(names.contains(surveys[surveys.len() - 1].from@));
        assert(0 <= from < names.len());
        assert(after.contains(from as usize)) by {
            if before.contains(from as usize) {
            } else {
                assert(after[before.len() as int] == from as usize);
            }
        }
        assert forall|x: usize| before.contains(x) implies after.contains(x) by {
            let k = choose|k: int| 0 <= k < before.len() && before[k] == x;
            assert(after[k] == x);
        }
        if speaks(surveys, names, a) {
            let b = choose|b: int| (#[trigger] stated(surveys, names, a, b)) is Some;
            if !(from == a && to == b) {
                assert(stated(rest, names, a, b) is Some);
            }
        }
        if after.contains(a as usize) {
            if before.contains(a as usize) {
                let b = choose|b: int| (#[trigger] stated(rest, names, a, b)) is Some;
                assert(stated(surveys, names, a, b) is Some);
            } else {
                let k = choose|k: int| 0 <= k < after.len() && after[k] == a as usize;
                assert(k < before.len() ==> before[k] == a as usize);
                assert(from == a);
                assert(stated(surveys, names, a, to) is Some);
            }
        }
    } else {
        assert forall|b: int| (#[trigger] stated(surveys, names, a, b)) is None by {}
    }
}

/// A list that holds nothing twice still does so once one more has joined.
proof fn lemma_joined_distinct(handles: Seq<usize>, h: usize)
    requires
        handles.no_duplicates(),
    ensures
        joined(handles, h).no_duplicates(),
{
    let after = joined(handles, h);
    if !handles.contains(h) {
        assert forall|i: int, j: int| 0 <= i < after.len() && 0 <= j < after.len() && i != j
            implies after[i] != after[j] by {
            if i == handles.len() {
                assert(after[j] == handles[j]);
            } else if j == handles.len() {
                assert(after[i] == handles[i]);
            }
        }
    }
}

/// No guest is listed twice.
pub proof fn lemma_hosts_distinct(surveys: Seq<Survey>, names: Seq<Seq<char>>)
    ensures
        hosts(surveys, names).no_duplicates(),
    decreases surveys.len(),
{
    if surveys.len() > 0 {
        lemma_hosts_distinct(surveys.drop_last(), names);
        lemma_joined_distinct(
            hosts(surveys.drop_last(), names),
            handle_of(names, surveys.last().from@) as usize,
        );
    }
}

/// The table of what the statements say, by the handles of the names on the
/// list.
pub fn potential_happiness_survey(surveies: &Vec<Survey>, names: &Vec<String>) -> (map:
    WeightTable)
    requires
        texts(names@).no_duplicates(),
        all_listed(surveies@, texts(names@)),
    ensures
        map.wf(),
        map.items() == names.len(),
        forall|a: int, b: int| map.weight(a, b) == stated(surveies@, texts(names@), a, b),
{
    let mut map = WeightTable::new(names.len());
    let mut i: usize = 0;
    while i < surveies.len()
        invariant
            i <= surveies.len(),
            texts(names@).no_duplicates(),
            all_listed(surveies@, texts(names@)),
            map.wf(),
            map.items() == names.len(),
            forall|a: int, b: int|
                map.weight(a, b) == stated(surveies@.take(i as int), texts(names@), a, b),
        decreases surveies.len() - i,
    {
        let survey = &surveies[i];
        let a = find(names, survey.from.as_str()).unwrap();
        let b = find(names, survey.to.as_str()).unwrap();
        map.set(a, b, survey.happiness as i64);
        proof {
            assert(surveies@.take(i + 1).drop_last() =~= surveies@.take(i as int));
        }
        i += 1;
    }
    assert(surveies@.take(surveies.len() as int) =~= surveies@);
    map
}

/// Whether `handles` holds `h`.
fn holds(handles: &Vec<usize>, h: usize) -> (r: bool)
    ensures
        r == handles@.contains(h),
{
    let mut i: usize = 0;
    while i < handles.len()
        invariant
            i <= handles.len(),
            forall|j: int| 0 <= j < i ==> handles[j] != h,
        decreases handles.len() - i,
    {
        if handles[i] == h {
            return true;
        }
        i += 1;
    }
    false
}

/// The table once `me` has joined: every item that has a row is indifferent
/// to `me`, and `me` is indifferent to every guest and to nobody else.
pub fn add_me_to_survey_map(survey_map: WeightTable, guests: &Vec<usize>, me: usize) -> (map:
    WeightTable)
    requires
        survey_map.wf(),
        me < survey_map.items(),
        forall|i: int| 0 <= i < guests.len() ==> (#[trigger] guests[i]) < survey_map.items(),
    ensures
        map.wf(),
        map.items() == survey_map.items(),
        forall|a: int, b: int|
            map.weight(a, b) == if 0 <= a < map.items() && 0 <= b < map.items() {
                with_me(survey_map.weight(a, b), survey_map.has_row(a), guests@, me, a, b)
            } else {
                None
            },
{
    let mut map = survey_map;
    let n = map.size();
    let mut row: usize = 0;
    while row < n
        invariant
            row <= n,
            map.wf(),
            n == map.items(),
            n == survey_map.items(),
            me < n,
            forall|a: int, b: int|
                map.weight(a, b) == if b == me && 0 <= a < row && survey_map.has_row(a) {
                    Some(0i64)
                } else {
                    survey_map.weight(a, b)
                },
        decreases n - row,
    {
        proof {
            // the row at hand is still as it was
            assert(map.has_row(row as int) == survey_map.has_row(row as int)) by {
                if map.has_row(row as int) {
                    let b = choose|b: int| (#[trigger] map.weight(row as int, b)) is Some;
                    assert(survey_map.weight(row as int, b) is Some);
                }
                if survey_map.has_row(row as int) {
                    let b = choose|b: int| (#[trigger] survey_map.weight(row as int, b)) is Some;
                    assert(map.weight(row as int, b) is Some);
                }
            }
        }
        if map.row_exists(row) {
            map.set(row, me, 0);
        }
        row += 1;
    }
    let ghost rows_done = map;
    let mut b: usize = 0;
    while b < n
        invariant
            b <= n,
            map.wf(),
            n == map.items(),
            me < n,
            forall|x: int, y: int|
                map.weight(x, y) == if x == me && 0 <= y < b {
                    None
                } else {
                    rows_done.weight(x, y)
                },
        decreases n - b,
    {
        map.unset(me, b);
        b += 1;
    }
    let ghost cleared = map;
    let mut i: usize = 0;
    while i < guests.len()
        invariant
            i <= guests.len(),
            map.wf(),
            n == map.items(),
            me < n,
            forall|i: int| 0 <= i < guests.len() ==> (#[trigger] guests[i]) < n,
            forall|x: int, y: int|
                map.weight(x, y) == if x == me && 0 <= y < n && guests@.take(i as int).contains(
                    y as usize,
                ) {
                    Some(0i64)
                } else {
                    cleared.weight(x, y)
                },
        decreases guests.len() - i,
    {
        let g = guests[i];
        map.set(me, g, 0);
        proof {
            let before = guests@.take(i as int);
            let after = guests@.take(i + 1);
            assert forall|x: usize| after.contains(x) <==> (before.contains(x) || x == g) by {
                if before.contains(x) {
                    let k = choose|k: int| 0 <= k < before.len() && before[k] == x;
                    assert(after[k] == x);
                }
                if x == g {
                    assert(after[i as int] == g);
                }
            }
        }
        i += 1;
    }
    proof {
        assert(guests@.take(guests.len() as int) =~= guests@);
        assert forall|a: int, b: int|
            map.weight(a, b) == if 0 <= a < map.items() && 0 <= b < map.items() {
                with_me(survey_map.weight(a, b), survey_map.has_row(a), guests@, me, a, b)
            } else {
                None
            } by {
            survey_map.lemma_weight_among_items(a, b);
            if 0 <= b <= usize::MAX && guests@.contains(b as usize) {
                let k = choose|k: int| 0 <= k < guests.len() && guests[k] == b as usize;
                assert(guests[k] < n);
            }
        }
    }
    map
}

/// What the search for the best seating returns, the plan taken as the texts
/// of its names: without a guest there is no seating; else the first lookup
/// that finds nothing is an error; else the result is the first seating that
/// no seating improves on, with its happiness.
pub open spec fn best_seating(
    table: &WeightTable,
    names: Seq<Seq<char>>,
    guests: Seq<usize>,
    r: Result<(Seq<Seq<char>>, int), EngineError>,
) -> bool {
    let plans = orderings(guests);
    match r {
        Err(EngineError::EmptyUniverse) => guests.len() == 0,
        Err(EngineError::MissingWeight { from, to }) => guests.len() > 0 && exists|k: int|
            0 <= k < plans.len() && seatings_known(table, plans, k) && cycle_missing(
                table,
                #[trigger] plans[k],
            ) == Some((from, to)),
        Ok((plan, happiness)) => {
            &&& guests.len() > 0
            &&& seatings_known(table, plans, plans.len() as int)
            &&& forall|j: int|
                0 <= j < plans.len() ==> cycle_value(table, #[trigger] plans[j]) <= happiness
            &&& exists|k: int|
                {
                    &&& 0 <= k < plans.len()
                    &&& cycle_value(table, #[trigger] plans[k]) == happiness
                    &&& plan == plans[k].map_values(|h: usize| names[h as int])
                    &&& forall|j: int| 0 <= j < k ==> cycle_value(table, #[trigger] plans[j]) != happiness
                }
        },
    }
}

/// The search for the best seating is a function of the table, the names and
/// the guests: whatever meets its contract on them is one and the same
/// result, plan and happiness alike, so a second run returns what the first
/// did.
pub proof fn lemma_best_seating_deterministic(
    table: &WeightTable,
    names: Seq<Seq<char>>,
    guests: Seq<usize>,
    first: Result<(Seq<Seq<char>>, int), EngineError>,
    second: Result<(Seq<Seq<char>>, int), EngineError>,
)
    requires
        best_seating(table, names, guests, first),
        best_seating(table, names, guests, second),
    ensures
        first == second,
{
    let plans = orderings(guests);
    match (first, second) {
        (Ok((plan_a, a)), Ok((plan_b, b))) => {
            let i = choose|k: int|
                {
                    &&& 0 <= k < plans.len()
                    &&& cycle_value(table, #[trigger] plans[k]) == a
                    &&& plan_a == plans[k].map_values(|h: usize| names[h as int])
                    &&& forall|j: int| 0 <= j < k ==> cycle_value(table, #[trigger] plans[j]) != a
                };
            let j = choose|k: int|
                {
                    &&& 0 <= k < plans.len()
                    &&& cycle_value(table, #[trigger] plans[k]) == b
                    &&& plan_b == plans[k].map_values(|h: usize| names[h as int])
                    &&& forall|j: int| 0 <= j < k ==> cycle_value(table, #[trigger] plans[j]) != b
                };
            assert(cycle_value(table, plans[i]) <= b);
            assert(cycle_value(table, plans[j]) <= a);
            assert(i == j);
        },
        (
            Err(EngineError::MissingWeight { from: fa, to: ta }),
            Err(EngineError::MissingWeight { from: fb, to: tb }),
        ) => {
            let i = choose|k: int|
                0 <= k < plans.len() && seatings_known(table, plans, k) && cycle_missing(
                    table,
                    #[trigger] plans[k],
                ) == Some((fa, ta));
            let j = choose|k: int|
                0 <= k < plans.len() && seatings_known(table, plans, k) && cycle_missing(
                    table,
                    #[trigger] plans[k],
                ) == Some((fb, tb));
            assert(i == j);
        },
        (Err(EngineError::MissingWeight { from, to }), Ok(_)) => {
            let i = choose|k: int|
                0 <= k < plans.len() && seatings_known(table, plans, k) && cycle_missing(
                    table,
                    #[trigger] plans[k],
                ) == Some((from, to));
            assert(cycle_missing(table, plans[i]) is None);
        },
        (Ok(_), Err(EngineError::MissingWeight { from, to })) => {
            let i = choose|k: int|
                0 <= k < plans.len() && seatings_known(table, plans, k) && cycle_missing(
                    table,
                    #[trigger] plans[k],
                ) == Some((from, to));
            assert(cycle_missing(table, plans[i]) is None);
        },
        _ => {},
    }
}

/// Every lookup finds a weight around the orderings before index `k`.
pub open spec fn seatings_known(table: &WeightTable, plans: Seq<Seq<usize>>, k: int) -> bool {
    forall|j: int| 0 <= j < k ==> cycle_missing(table, #[trigger] plans[j]) is None
}

/// The texts of a result of the search.
pub open spec fn seating_view(r: Result<(Vec<String>, i64), EngineError>) -> Result<
    (Seq<Seq<char>>, int),
    EngineError,
> {
    match r {
        Ok((plan, happiness)) => Ok((texts(plan@), happiness as int)),
        Err(e) => Err(e),
    }
}

/// The guests, what they state about each other, and the same with `Me` among
/// them.
pub struct Puzzle {
    names: Vec<String>,
    survey_map: WeightTable,
    guests: Vec<usize>,
    guests_and_me: Vec<usize>,
}

impl Puzzle {
    /// The names are distinct, the table is over them, its weights are `i32`,
    /// and the guests are among the names.
    pub closed spec fn wf(&self) -> bool {
        &&& texts(self.names@).no_duplicates()
        &&& self.survey_map.wf()
        &&& self.survey_map.items() == self.names.len()
        &&& weights_within(&self.survey_map, 0x8000_0000)
        &&& forall|i: int|
            0 <= i < self.guests.len() ==> (#[trigger] self.guests[i]) < self.names.len()
        &&& forall|i: int|
            0 <= i < self.guests_and_me.len() ==> (#[trigger] self.guests_and_me[i])
                < self.names.len()
    }

    /// Everyone's name; a name's position is its handle.
    pub closed spec fn names(&self) -> Seq<Seq<char>> {
        texts(self.names@)
    }

    /// The happiness of each next to each other, by handle.
    pub closed spec fn table(&self) -> WeightTable {
        self.survey_map
    }

    /// The handles of the guests.
    pub closed spec fn guests(&self) -> Seq<usize> {
        self.guests@
    }

    /// The handles of the guests and of `Me`.
    pub closed spec fn guests_and_me(&self) -> Seq<usize> {
        self.guests_and_me@
    }

    /// The number of guests.
    pub fn guest_count(&self) -> (n: usize)
        ensures
            n == self.guests().len(),
    {
        self.guests.len()
    }

    /// The number of guests, `Me` counted among them.
    pub fn guest_count_with_me(&self) -> (n: usize)
        ensures
            n == self.guests_and_me().len(),
    {
        self.guests_and_me.len()
    }

    /// The handle of the name `name`, where the puzzle knows it.
    pub fn handle(&self, name: &str) -> (r: Option<usize>)
        requires
            self.wf(),
        ensures
            match r {
                Some(h) => h < self.names().len() && self.names()[h as int] == name@ && h
                    == handle_of(self.names(), name@),
                None => !self.names().contains(name@),
            },
    {
        let r = find(&self.names, name);
        proof {
            if let Some(h) = r {
                assert(texts(self.names@)[h as int] == self.names[h as int]@);
            }
        }
        r
    }

    /// The puzzle of the given statements. The guests are those who state
    /// something, none listed twice; `Me` joins as one who is indifferent to
    /// every guest, and every guest to `Me`.
    pub fn new(surveies: Vec<Survey>) -> (p: Puzzle)
        ensures
            p.wf(),
            p.names() == everyone(surveies@),
            p.guests() == hosts(surveies@, p.names()),
            p.guests().len() <= surveies@.len(),
            p.guests().no_duplicates(),
            p.guests_and_me() == joined(p.guests(), handle_of(p.names(), "Me"@) as usize),
            p.guests_and_me().len() <= p.guests().len() + 1,
            p.guests_and_me().no_duplicates(),
            forall|a: int, b: int|
                p.table().weight(a, b) == if 0 <= a < p.names().len() && 0 <= b < p.names().len() {
                    with_me(
                        stated(surveies@, p.names(), a, b),
                        p.guests().contains(a as usize),
                        p.guests(),
                        handle_of(p.names(), "Me"@) as usize,
                        a,
                        b,
                    )
                } else {
                    None
                },
    {
        let mut names: Vec<String> = Vec::new();
        let mut i: usize = 0;
        while i < surveies.len()
            invariant
                i <= surveies.len(),
                texts(names@).no_duplicates(),
                texts(names@) == mentioned(surveies@.take(i as int)),
            decreases surveies.len() - i,
        {
            enroll(&mut names, surveies[i].from.as_str());
            enroll(&mut names, surveies[i].to.as_str());
            proof {
                assert(surveies@.take(i + 1).drop_last() =~= surveies@.take(i as int));
            }
            i += 1;
        }
        assert(surveies@.take(surveies.len() as int) =~= surveies@);
        let me = enroll(&mut names, "Me");
        let ghost all = texts(names@);
        proof {
            lemma_mentioned(surveies@);
            assert forall|i: int| 0 <= i < surveies.len() implies all.contains(
                (#[trigger] surveies@[i]).from@,
            ) && all.contains(surveies@[i].to@) by {
                lemma_handle_stays(mentioned(surveies@), surveies@[i].from@, "Me"@);
                lemma_handle_stays(mentioned(surveies@), surveies@[i].to@, "Me"@);
            }
        }
        let mut guests: Vec<usize> = Vec::new();
        let mut i: usize = 0;
        while i < surveies.len()
            invariant
                i <= surveies.len(),
                all == texts(names@),
                all.no_duplicates(),
                all_listed(surveies@, all),
                guests@ == hosts(surveies@.take(i as int), all),
                guests.len() <= i,
                forall|j: int| 0 <= j < guests.len() ==> (#[trigger] guests[j]) < names.len(),
            decreases surveies.len() - i,
        {
            let h = find(&names, surveies[i].from.as_str()).unwrap();
            if !holds(&guests, h) {
                guests.push(h);
            }
            proof {
                assert(surveies@.take(i + 1).drop_last() =~= surveies@.take(i as int));
            }
            i += 1;
        }
        let stated_map = potential_happiness_survey(&surveies, &names);
        let survey_map = add_me_to_survey_map(stated_map, &guests, me);
        let mut guests_and_me = guests.clone();
        if !holds(&guests_and_me, me) {
            guests_and_me.push(me);
        }
        proof {
            assert forall|a: int, b: int| (#[trigger] survey_map.weight(a, b)) matches Some(w)
                ==> -0x8000_0000 <= w <= 0x8000_0000 by {
                lemma_stated_small(surveies@, all, a, b);
            }
            // those who have a row are the guests
            assert forall|a: int| 0 <= a < all.len() implies stated_map.has_row(a)
                == guests@.contains(a as usize) by {
                lemma_hosts_have_rows(surveies@, all, a);
                if stated_map.has_row(a) {
                    let b = choose|b: int| (#[trigger] stated_map.weight(a, b)) is Some;
                    assert(stated(surveies@, all, a, b) is Some);
                }
                if speaks(surveies@, all, a) {
                    let b = choose|b: int| (#[trigger] stated(surveies@, all, a, b)) is Some;
                    assert(stated_map.weight(a, b) is Some);
                }
            }
            lemma_hosts_distinct(surveies@, all);
            lemma_joined_distinct(guests@, me);
        }
        Puzzle { names, survey_map, guests, guests_and_me }
    }

    /// The happiness of a seating plan: what each guest states about the next
    /// and the next about that guest, all round the table.
    pub fn get_happiness(&self, plan: &Vec<usize>) -> (r: Result<i64, EngineError>)
        requires
            self.wf(),
            plan.len() <= i32::MAX,
        ensures
            match cycle_missing(&self.table(), plan@) {
                Some((from, to)) => r == Err::<i64, EngineError>(
                    EngineError::MissingWeight { from, to },
                ),
                None => r matches Ok(s) && s == cycle_value(&self.table(), plan@),
            },
    {
        proof {
            assert(2 * plan.len() * 0x8000_0000 <= i64::MAX) by (nonlinear_arith)
                requires
                    plan.len() <= i32::MAX,
            ;
            lemma_cycle_fits(&self.survey_map, plan@, 0x8000_0000);
        }
        cyclic_sum(&self.survey_map, plan)
    }

    fn best_plan(&self, guests: &Vec<usize>) -> (r: Result<(Vec<String>, i64), EngineError>)
        requires
            self.wf(),
            guests.len() <= i32::MAX,
            forall|i: int| 0 <= i < guests.len() ==> (#[trigger] guests[i]) < self.names.len(),
        ensures
            best_seating(&self.table(), self.names(), guests@, seating_view(r)),
    {
        let plans = permutations(guests.clone());
        let scoring = CyclicSum { table: &self.survey_map };
        let ghost all = orderings(guests@);
        proof {
            assert forall|k: int| 0 <= k < plans.len() implies (#[trigger] plans[k])@ == all[k] by {}
            assert forall|k: int| 0 <= k < plans.len() implies #[trigger] scoring.fits(&plans[k]) by {
                lemma_orderings_width(guests@, k);
                assert(2 * plans[k]@.len() * 0x8000_0000 <= i64::MAX) by (nonlinear_arith)
                    requires
                        plans[k]@.len() <= i32::MAX,
                ;
                lemma_cycle_fits(&self.survey_map, plans[k]@, 0x8000_0000);
            }
            if guests.len() > 0 {
                lemma_orderings_count(guests@);
                lemma_factorial_positive(guests@.len());
            }
        }
        match optimize(&plans, &scoring, Direction::Max) {
            Ok(w) => {
                let best = &plans[w.index];
                let mut plan: Vec<String> = Vec::new();
                let mut i: usize = 0;
                proof {
                    lemma_orderings_permute(guests@, w.index as int);
                    best@.to_multiset_ensures();
                    guests@.to_multiset_ensures();
                    assert forall|i: int| 0 <= i < best.len() implies (#[trigger] best[i])
                        < self.names.len() by {
                        assert(best@.to_multiset().count(best[i]) > 0);
                    }
                }
                while i < best.len()
                    invariant
                        i <= best.len(),
                        forall|i: int| 0 <= i < best.len() ==> (#[trigger] best[i]) < self.names.len(),
                        plan.len() == i,
                        forall|j: int| 0 <= j < i ==> (#[trigger] plan[j])@ == self.names[best[j] as int]@,
                    decreases best.len() - i,
                {
                    plan.push(self.names[best[i]].clone());
                    i += 1;
                }
                proof {
                    let names = texts(self.names@);
                    assert(texts(plan@) =~= all[w.index as int].map_values(|h: usize| names[h as int]));
                    assert forall|j: int| 0 <= j < all.len() implies cycle_value(
                        &self.survey_map,
                        #[trigger] all[j],
                    ) <= w.score by {
                        assert(!improves(Direction::Max, scoring.value(&plans[j]), w.score as int));
                    }
                    assert forall|j: int| 0 <= j < all.len() implies cycle_missing(
                        &self.survey_map,
                        #[trigger] all[j],
                    ) is None by {
                        assert(scoring.missing(&plans[j]) is None);
                    }
                    assert forall|j: int| 0 <= j < w.index implies cycle_value(
                        &self.survey_map,
                        #[trigger] all[j],
                    ) != w.score by {
                        assert(scoring.value(&plans[j]) != w.score);
                    }
                }
                Ok((plan, w.score))
            },
            Err(e) => {
                proof {
                    if plans.len() > 0 {
                        let k = choose|k: int|
                            {
                                &&& 0 <= k < plans.len()
                                &&& defined_before(&scoring, plans@, k)
                                &&& #[trigger] scoring.missing(&plans[k]) matches Some((from, to))
                                &&& e == (EngineError::MissingWeight { from, to })
                            };
                        assert forall|j: int| 0 <= j < k implies cycle_missing(
                            &self.survey_map,
                            #[trigger] all[j],
                        ) is None by {
                            assert(scoring.missing(&plans[j]) is None);
                        }
                    }
                }
                Err(e)
            },
        }
    }

    /// The happiest seating of the guests, as their names in order round the
    /// table, and its happiness.
    pub fn optimal_plan(&self) -> (r: Result<(Vec<String>, i64), EngineError>)
        requires
            self.wf(),
            self.guests().len() <= i32::MAX,
        ensures
            best_seating(&self.table(), self.names(), self.guests(), seating_view(r)),
    {
        self.best_plan(&self.guests)
    }

    /// The happiest seating of the guests and `Me`, and its happiness.
    pub fn optimal_plan_with_me(&self) -> (r: Result<(Vec<String>, i64), EngineError>)
        requires
            self.wf(),
            self.guests_and_me().len() <= i32::MAX,
        ensures
            best_seating(&self.table(), self.names(), self.guests_and_me(), seating_view(r)),
    {
        self.best_plan(&self.guests_and_me)
    }
}

} // verus!
