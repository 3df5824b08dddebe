//! The shortest and the longest way through all the places that a list of
//! distances names, each visited once.

use vstd::prelude::*;
use vstd::string::*;
use crate::optimizer::optimize;
use crate::optimizer::Direction;
use crate::optimizer::EngineError;
use crate::optimizer::Scoring;
use crate::ordering::lemma_orderings_width;
use crate::ordering::orderings;
use crate::ordering::permutations;
use crate::ordering::rows;
use crate::pattern::captures;
use crate::pattern::group;
use crate::pattern::group_text;
use crate::pattern::groups_view;
use crate::pattern::regex_captures;
use crate::scoring::lemma_path_fits;
use crate::scoring::path_gap;
use crate::scoring::path_pairs;
use crate::scoring::path_value;
use crate::scoring::PathSum;
use crate::table::WeightTable;
use crate::text::parse_error;
use crate::text::parse_unsigned;
use crate::text::same_text;
use crate::text::unsigned_decimal;
use crate::text::ParseError;

verus! {

/// The places that a route can lead to.
#[derive(Clone, Copy, Debug, PartialEq, Eq, Hash, Structural)]
pub enum Location {
    Tristram,
    AlphaCentauri,
    Snowdin,
    Tambi,
    Faerun,
    Norrath,
    Straylight,
    Arbre,
}

/// The place that `s` names.
pub open spec fn location_named(s: Seq<char>) -> Option<Location> {
    if s == "Tristram"@ {
        Some(Location::Tristram)
    } else if s == "AlphaCentauri"@ {
        Some(Location::AlphaCentauri)
    } else if s == "Snowdin"@ {
        Some(Location::Snowdin)
    } else if s == "Tambi"@ {
        Some(Location::Tambi)
    } else if s == "Faerun"@ {
        Some(Location::Faerun)
    } else if s == "Norrath"@ {
        Some(Location::Norrath)
    } else if s == "Straylight"@ {
        Some(Location::Straylight)
    } else if s == "Arbre"@ {
        Some(Location::Arbre)
    } else {
        None
    }
}

impl Location {
    /// The handle of the place in a weight table: its rank in the list.
    pub open spec fn handle(self) -> usize {
        match self {
            Location::Tristram => 0,
            Location::AlphaCentauri => 1,
            Location::Snowdin => 2,
            Location::Tambi => 3,
            Location::Faerun => 4,
            Location::Norrath => 5,
            Location::Straylight => 6,
            Location::Arbre => 7,
        }
    }

    /// The handle of the place in a weight table.
    pub fn index(self) -> (i: usize)
        ensures
            i == self.handle(),
            i < 8,
    {
        match self {
            Location::Tristram => 0,
            Location::AlphaCentauri => 1,
            Location::Snowdin => 2,
            Location::Tambi => 3,
            Location::Faerun => 4,
            Location::Norrath => 5,
            Location::Straylight => 6,
            Location::Arbre => 7,
        }
    }

    /// Reads the name of a place.
    pub fn from_str(s: &str) -> (r: Result<Location, ParseError>)
        ensures
            match location_named(s@) {
                Some(l) => r == Ok::<Location, ParseError>(l),
                None => r matches Err(e) && e.message@ == "parse Location from: \""@ + s@
                    + "\" failed"@,
            },
    {
        if same_text(s, "Tristram") {
            Ok(Location::Tristram)
        } else if same_text(s, "AlphaCentauri") {
            Ok(Location::AlphaCentauri)
        } else if same_text(s, "Snowdin") {
            Ok(Location::Snowdin)
        } else if same_text(s, "Tambi") {
            Ok(Location::Tambi)
        } else if same_text(s, "Faerun") {
            Ok(Location::Faerun)
        } else if same_text(s, "Norrath") {
            Ok(Location::Norrath)
        } else if same_text(s, "Straylight") {
            Ok(Location::Straylight)
        } else if same_text(s, "Arbre") {
            Ok(Location::Arbre)
        } else {
            Err(parse_error("parse Location from: \"", s, "\" failed"))
        }
    }
}

/// The distance between two places, the same both ways.
#[derive(Clone, Copy, Debug, PartialEq, Eq, Structural)]
pub struct Route {
    pub from: Location,
    pub to: Location,
    pub distance: u32,
}

/// The route that the groups of a matched line spell out: two places and a
/// distance that is a `u32`.
pub open spec fn route_of_groups(groups: Seq<Option<Seq<char>>>) -> Option<Route> {
    if groups.len() < 4 {
        None
    } else {
        match (group_text(groups, 1), group_text(groups, 2), group_text(groups, 3)) {
            (Some(a), Some(b), Some(d)) => match (
                location_named(a),
                location_named(b),
                unsigned_decimal(d),
            ) {
                (Some(from), Some(to), Some(distance)) => if distance <= u32::MAX {
                    Some(Route { from, to, distance: distance as u32 })
                } else {
                    None
                },
                _ => None,
            },
            _ => None,
        }
    }
}

/// The route that a line spells out, going by what the pattern finds in it.
pub open spec fn route_of_line(line: Seq<char>) -> Option<Route> {
    match regex_captures(r"^(\w+) to (\w+) = (\d+)$"@, line) {
        Some(groups) => route_of_groups(groups),
        None => None,
    }
}

impl Route {
    /// Reads a route from the groups of a matched line.
    pub fn from_captures(groups: &Vec<Option<String>>) -> (r: Option<Route>)
        ensures
            r == route_of_groups(groups_view(Some(*groups))->0),
    {
        if groups.len() < 4 {
            return None;
        }
        let (a, b, d) = match (group(groups, 1), group(groups, 2), group(groups, 3)) {
            (Some(a), Some(b), Some(d)) => (a, b, d),
            _ => {
                return None;
            },
        };
        let from = match Location::from_str(a) {
            Ok(l) => l,
            Err(_) => {
                return None;
            },
        };
        let to = match Location::from_str(b) {
            Ok(l) => l,
            Err(_) => {
                return None;
            },
        };
        match parse_unsigned(d, 0xffff_ffff) {
            Some(distance) => Some(Route { from, to, distance: distance as u32 }),
            None => None,
        }
    }

    /// Reads a line of the form `A to B = 12`.
    pub fn from_str(s: &str) -> (r: Result<Route, ParseError>)
        ensures
            match route_of_line(s@) {
                Some(route) => r == Ok::<Route, ParseError>(route),
                None => r matches Err(e) && e.message@ == "parse Route from: \""@ + s@
                    + "\" failed"@,
            },
    {
        let found = match captures(r"^(\w+) to (\w+) = (\d+)$", s) {
            Some(groups) => Route::from_captures(&groups),
            None => None,
        };
        match found {
            Some(route) => Ok(route),
            None => Err(parse_error("parse Route from: \"", s, "\" failed")),
        }
    }
}

/// The distance that `routes` give for the way from `a` to `b`: that of the
/// last route between the two, in either direction.
pub open spec fn recorded(routes: Seq<Route>, a: int, b: int) -> Option<i64>
    decreases routes.len(),
{
    if routes.len() == 0 {
        None
    } else {
        let last = routes.last();
        if (last.from.handle() == a && last.to.handle() == b) || (last.from.handle() == b
            && last.to.handle() == a) {
            Some(last.distance as i64)
        } else {
            recorded(routes.drop_last(), a, b)
        }
    }
}

/// Some route of `routes` starts or ends at the place with handle `l`.
pub open spec fn visited(routes: Seq<Route>, l: int) -> bool {
    exists|i: int|
        0 <= i < routes.len() && ((#[trigger] routes[i]).from.handle() == l || routes[i].to.handle()
            == l)
}

/// The distances between places, and the places to visit.
pub struct RouteMap {
    route_distances: WeightTable,
    locations: Vec<usize>,
}

/// Sets the distance of the way from `from` to `to`.
pub fn record_route_distance(
    route_distances: &mut WeightTable,
    from: &Location,
    to: &Location,
    distance: u32,
)
    requires
        old(route_distances).wf(),
        old(route_distances).items() == 8,
    ensures
        final(route_distances).wf(),
        final(route_distances).items() == 8,
        forall|a: int, b: int|
            final(route_distances).weight(a, b) == if a == from.handle() && b == to.handle() {
                Some(distance as i64)
            } else {
                old(route_distances).weight(a, b)
            },
{
    route_distances.set(from.index(), to.index(), distance as i64);
}

/// All orderings of the places, in the order of [`orderings`]: one for a
/// single place, none for no place.
pub fn route_permutation(locations: Vec<usize>) -> (out: Vec<Vec<usize>>)
    ensures
        rows(out@) == orderings(locations@),
{
    permutations(locations)
}

/// No adjacent pair is without a distance along the orderings before index `k`.
pub open spec fn ways_known(table: &WeightTable, ways: Seq<Seq<usize>>, k: int) -> bool {
    forall|j: int|
        0 <= j < k ==> path_gap(table, #[trigger] ways[j], path_pairs(ways[j])) is None
}

/// What the search for the best way returns: with fewer than two places there
/// is no way; else the first adjacent pair without a distance is an error;
/// else the result is the length of a way that no way improves on.
pub open spec fn best_way(
    table: &WeightTable,
    stops: Seq<usize>,
    direction: Direction,
    r: Result<u64, EngineError>,
) -> bool {
    let ways = orderings(stops);
    match r {
        Err(EngineError::EmptyUniverse) => stops.len() < 2,
        Err(EngineError::MissingWeight { from, to }) => stops.len() >= 2 && exists|k: int|
            0 <= k < ways.len() && ways_known(table, ways, k) && path_gap(
                table,
                #[trigger] ways[k],
                path_pairs(ways[k]),
            ) == Some((from, to)),
        Ok(d) => {
            &&& stops.len() >= 2
            &&& ways_known(table, ways, ways.len() as int)
            &&& exists|k: int| 0 <= k < ways.len() && path_value(table, #[trigger] ways[k]) == d
            &&& forall|k: int|
                0 <= k < ways.len() ==> !crate::optimizer::improves(
                    direction,
                    path_value(table, #[trigger] ways[k]),
                    d as int,
                )
        },
    }
}

/// The search for the best way is a function of the table, the places and
/// the direction: whatever meets its contract on them is one and the same
/// result, so a second run returns what the first did.
pub proof fn lemma_best_way_deterministic(
    table: &WeightTable,
    stops: Seq<usize>,
    direction: Direction,
    first: Result<u64, EngineError>,
    second: Result<u64, EngineError>,
)
    requires
        best_way(table, stops, direction, first),
        best_way(table, stops, direction, second),
    ensures
        first == second,
{
    let ways = orderings(stops);
    match (first, second) {
        (Ok(a), Ok(b)) => {
            let i = choose|k: int|
                0 <= k < ways.len() && path_value(table, #[trigger] ways[k]) == a;
            let j = choose|k: int|
                0 <= k < ways.len() && path_value(table, #[trigger] ways[k]) == b;
            assert(!crate::optimizer::improves(direction, path_value(table, ways[i]), b as int));
            assert(!crate::optimizer::improves(direction, path_value(table, ways[j]), a as int));
        },
        (
            Err(EngineError::MissingWeight { from: fa, to: ta }),
            Err(EngineError::MissingWeight { from: fb, to: tb }),
        ) => {
            let i = choose|k: int|
                0 <= k < ways.len() && ways_known(table, ways, k) && path_gap(
                    table,
                    #[trigger] ways[k],
                    path_pairs(ways[k]),
                ) == Some((fa, ta));
            let j = choose|k: int|
                0 <= k < ways.len() && ways_known(table, ways, k) && path_gap(
                    table,
                    #[trigger] ways[k],
                    path_pairs(ways[k]),
                ) == Some((fb, tb));
            assert(i == j);
        },
        (Err(EngineError::MissingWeight { from, to }), Ok(_)) => {
            let i = choose|k: int|
                0 <= k < ways.len() && ways_known(table, ways, k) && path_gap(
                    table,
                    #[trigger] ways[k],
                    path_pairs(ways[k]),
                ) == Some((from, to));
            assert(path_gap(table, ways[i], path_pairs(ways[i])) is None);
        },
        (Ok(_), Err(EngineError::MissingWeight { from, to })) => {
            let i = choose|k: int|
                0 <= k < ways.len() && ways_known(table, ways, k) && path_gap(
                    table,
                    #[trigger] ways[k],
                    path_pairs(ways[k]),
                ) == Some((from, to));
            assert(path_gap(table, ways[i], path_pairs(ways[i])) is None);
        },
        _ => {},
    }
}

impl RouteMap {
    /// The map keeps its table over the eight places, with distances that are
    /// `u32`, and its places to visit by rising handle.
    pub closed spec fn wf(&self) -> bool {
        &&& self.route_distances.wf()
        &&& self.route_distances.items() == 8
        &&& forall|a: int, b: int|
            (#[trigger] self.route_distances.weight(a, b)) matches Some(w) ==> 0 <= w <= u32::MAX
        &&& forall|i: int, j: int|
            0 <= i < j < self.locations.len() ==> self.locations[i] < self.locations[j]
        &&& forall|i: int| 0 <= i < self.locations.len() ==> (#[trigger] self.locations[i]) < 8
    }

    /// The distances, by the handles of the places.
    pub closed spec fn table(&self) -> WeightTable {
        self.route_distances
    }

    /// The handles of the places to visit, rising.
    pub closed spec fn stops(&self) -> Seq<usize> {
        self.locations@
    }

    /// The map of the given routes: each distance holds both ways, a later
    /// route replaces an earlier one between the same places, and the places
    /// to visit are those that a route starts or ends at.
    pub fn new(routes: Vec<Route>) -> (m: RouteMap)
        ensures
            m.wf(),
            forall|a: int, b: int| m.table().weight(a, b) == recorded(routes@, a, b),
            forall|l: usize| m.stops().contains(l) <==> visited(routes@, l as int),
            forall|i: int, j: int| 0 <= i < j < m.stops().len() ==> m.stops()[i] < m.stops()[j],
    {
        let mut route_distances = WeightTable::new(8);
        let mut seen: Vec<bool> = Vec::new();
        let mut l: usize = 0;
        while l < 8
            invariant
                l <= 8,
                seen.len() == l,
                forall|i: int| 0 <= i < l ==> !seen[i],
            decreases 8 - l,
        {
            seen.push(false);
            l += 1;
        }
        let mut i: usize = 0;
        while i < routes.len()
            invariant
                i <= routes.len(),
                route_distances.wf(),
                route_distances.items() == 8,
                seen.len() == 8,
                forall|a: int, b: int|
                    route_distances.weight(a, b) == recorded(routes@.take(i as int), a, b),
                forall|l: int| 0 <= l < 8 ==> (seen[l] <==> visited(routes@.take(i as int), l)),
            decreases routes.len() - i,
        {
            let r = routes[i];
            let ghost before = routes@.take(i as int);
            let ghost after = routes@.take(i + 1);
            proof {
                assert(after.drop_last() =~= before);
                assert(after.last() == r);
                assert forall|l: int| visited(after, l) <==> (visited(before, l) || r.from.handle()
                    == l || r.to.handle() == l) by {
                    if visited(before, l) {
                        let k = choose|k: int|
                            0 <= k < before.len() && ((#[trigger] before[k]).from.handle() == l
                                || before[k].to.handle() == l);
                        assert(after[k] == before[k]);
                    }
                    if visited(after, l) {
                        let k = choose|k: int|
                            0 <= k < after.len() && ((#[trigger] after[k]).from.handle() == l
                                || after[k].to.handle() == l);
                        assert(k < i ==> before[k] == after[k]);
                    }
                }
            }
            seen.set(r.from.index(), true);
            seen.set(r.to.index(), true);
            record_route_distance(&mut route_distances, &r.from, &r.to, r.distance);
            record_route_distance(&mut route_distances, &r.to, &r.from, r.distance);
            i += 1;
        }
        assert(routes@.take(routes.len() as int) =~= routes@);
        let mut locations: Vec<usize> = Vec::new();
        let mut l: usize = 0;
        while l < 8
            invariant
                l <= 8,
                seen.len() == 8,
                forall|i: int, j: int| 0 <= i < j < locations.len() ==> locations[i] < locations[j],
                forall|i: int| 0 <= i < locations.len() ==> (#[trigger] locations[i]) < l,
                forall|x: usize| locations@.contains(x) <==> (x < l && seen[x as int]),
            decreases 8 - l,
        {
            if seen[l] {
                let ghost before = locations@;
                locations.push(l);
                assert forall|x: usize| locations@.contains(x) <==> (x < l + 1 && seen[x as int]) by {
                    if before.contains(x) {
                        let k = choose|k: int| 0 <= k < before.len() && before[k] == x;
                        assert(locations@[k] == x);
                    }
                    if x == l {
                        assert(locations@[before.len() as int] == x);
                    }
                    if locations@.contains(x) {
                        let k = choose|k: int| 0 <= k < locations@.len() && locations@[k] == x;
                        assert(k < before.len() ==> before[k] == x);
                    }
                }
            }
            l += 1;
        }
        proof {
            assert forall|a: int, b: int|
                (#[trigger] route_distances.weight(a, b)) matches Some(w) ==> 0 <= w
                    <= u32::MAX by {
                lemma_recorded_is_distance(routes@, a, b);
            }
            assert forall|x: usize| locations@.contains(x) <==> visited(routes@, x as int) by {}
        }
        RouteMap { route_distances, locations }
    }

    fn best_route(&self, direction: Direction) -> (r: Result<u64, EngineError>)
        requires
            self.wf(),
        ensures
            best_way(&self.table(), self.stops(), direction, r),
    {
        if self.locations.len() < 2 {
            return Err(EngineError::EmptyUniverse);
        }
        let ways = route_permutation(self.locations.clone());
        let scoring = PathSum { table: &self.route_distances };
        let ghost all = orderings(self.locations@);
        proof {
            assert(self.locations.len() <= 8) by {
                lemma_rising_below(self.locations@, 8);
            }
            assert forall|k: int| 0 <= k < ways.len() implies #[trigger] scoring.fits(&ways[k]) by {
                lemma_orderings_width(self.locations@, k);
                lemma_path_fits(&self.route_distances, ways[k]@, u32::MAX as int);
            }
        }
        let found = optimize(&ways, &scoring, direction);
        proof {
            assert forall|k: int| 0 <= k < ways.len() implies (#[trigger] ways[k])@ == all[k] by {}
            crate::ordering::lemma_orderings_count(self.locations@);
            crate::ordering::lemma_factorial_positive(self.locations@.len());
        }
        match found {
            Ok(w) => {
                proof {
                    assert(0 <= w.score) by {
                        lemma_path_value_positive(&self.route_distances, all[w.index as int]);
                    }
                    assert forall|k: int| 0 <= k < all.len() implies !crate::optimizer::improves(
                        direction,
                        path_value(&self.route_distances, #[trigger] all[k]),
                        w.score as int,
                    ) by {
                        assert(scoring.value(&ways[k]) == path_value(&self.route_distances, all[k]));
                    }
                    assert forall|j: int| 0 <= j < all.len() implies path_gap(
                        &self.route_distances,
                        #[trigger] all[j],
                        path_pairs(all[j]),
                    ) is None by {
                        assert(scoring.missing(&ways[j]) is None);
                    }
                }
                Ok(w.score as u64)
            },
            Err(e) => {
                proof {
                    let k = choose|k: int|
                        {
                            &&& 0 <= k < ways.len()
                            &&& crate::optimizer::defined_before(&scoring, ways@, k)
                            &&& #[trigger] scoring.missing(&ways[k]) matches Some((from, to))
                            &&& e == (EngineError::MissingWeight { from, to })
                        };
                    assert forall|j: int| 0 <= j < k implies path_gap(
                        &self.route_distances,
                        #[trigger] all[j],
                        path_pairs(all[j]),
                    ) is None by {
                        assert(scoring.missing(&ways[j]) is None);
                    }
                }
                Err(e)
            },
        }
    }

    /// The length of the shortest way through all places.
    pub fn shortest_route(&self) -> (r: Result<u64, EngineError>)
        requires
            self.wf(),
        ensures
            best_way(&self.table(), self.stops(), Direction::Min, r),
    {
        self.best_route(Direction::Min)
    }

    /// The length of the longest way through all places.
    pub fn longest_route(&self) -> (r: Result<u64, EngineError>)
        requires
            self.wf(),
        ensures
            best_way(&self.table(), self.stops(), Direction::Max, r),
    {
        self.best_route(Direction::Max)
    }
}

proof fn lemma_recorded_is_distance(routes: Seq<Route>, a: int, b: int)
    ensures
        recorded(routes, a, b) matches Some(w) ==> 0 <= w <= u32::MAX,
    decreases routes.len(),
{
    if routes.len() > 0 {
        lemma_recorded_is_distance(routes.drop_last(), a, b);
    }
}

/// A rising sequence of numbers below `bound` has at most `bound` members.
proof fn lemma_rising_below(s: Seq<usize>, bound: int)
    requires
        forall|i: int, j: int| 0 <= i < j < s.len() ==> s[i] < s[j],
        forall|i: int| 0 <= i < s.len() ==> (#[trigger] s[i]) < bound,
    ensures
        s.len() <= bound || s.len() == 0,
    decreases s.len(),
{
    if s.len() > 0 {
        let t = s.drop_last();
        assert(s[0] < bound);
        assert forall|i: int| 0 <= i < t.len() implies (#[trigger] t[i]) < bound - 1 by {
            assert(s[i] < s[s.len() - 1]);
        }
        lemma_rising_below(t, bound - 1);
    }
}

/// Where no weight is negative, no path sum is.
proof fn lemma_path_value_positive(table: &WeightTable, ordering: Seq<usize>)
    requires
        forall|a: int, b: int| (#[trigger] table.weight(a, b)) matches Some(w) ==> 0 <= w,
    ensures
        0 <= path_value(table, ordering),
{
    lemma_path_total_positive(table, ordering, path_pairs(ordering));
}

proof fn lemma_path_total_positive(table: &WeightTable, ordering: Seq<usize>, count: nat)
    requires
        forall|a: int, b: int| (#[trigger] table.weight(a, b)) matches Some(w) ==> 0 <= w,
    ensures
        0 <= crate::scoring::path_total(table, ordering, count),
    decreases count,
{
    if count > 0 {
        lemma_path_total_positive(table, ordering, (count - 1) as nat);
    }
}

} // verus!
