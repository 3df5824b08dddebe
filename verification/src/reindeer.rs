//! A race of reindeer that fly and rest in turns: who is ahead after a given
//! time, and who was ahead most often on the way.

use vstd::prelude::*;
use vstd::string::*;
use crate::optimizer::defined_before;
use crate::optimizer::improves;
use crate::optimizer::optimize;
use crate::optimizer::optimize_ties;
use crate::optimizer::Direction;
use crate::optimizer::EngineError;
use crate::optimizer::Scoring;
use crate::pattern::captures;
use crate::pattern::group;
use crate::pattern::group_text;
use crate::pattern::groups_view;
use crate::pattern::regex_captures;
use crate::text::parse_error;
use crate::text::parse_unsigned;
use crate::text::unsigned_decimal;
use crate::text::ParseError;

verus! {

/// How a reindeer flies: `speed` for `stamina` seconds out of every
/// `full_cycle`, and rest for the others.
#[derive(Debug, PartialEq, Eq)]
pub struct ReindeerPerformance {
    pub name: String,
    pub speed: u32,
    pub stamina: u32,
    pub full_cycle: u32,
}

/// How far a reindeer has come after `time` seconds: its full cycles, and of
/// the cycle it is in the seconds flown, which are at most `stamina`.
pub open spec fn distance_at(speed: nat, stamina: nat, full_cycle: nat, time: nat) -> nat {
    let full = speed * stamina * (time / full_cycle);
    let remain = time % full_cycle;
    if remain > stamina {
        full + speed * stamina
    } else {
        full + speed * remain
    }
}

impl ReindeerPerformance {
    /// The name and the three numbers of a reindeer.
    pub open spec fn view(&self) -> (Seq<char>, nat, nat, nat) {
        (self.name@, self.speed as nat, self.stamina as nat, self.full_cycle as nat)
    }

    /// How far this reindeer has come after `time` seconds.
    pub open spec fn distance(&self, time: nat) -> nat {
        distance_at(self.speed as nat, self.stamina as nat, self.full_cycle as nat, time)
    }

    /// The reindeer has a cycle, and where it is after `time` seconds is a
    /// `u32`.
    pub open spec fn can_race(&self, time: nat) -> bool {
        self.full_cycle > 0 && self.distance(time) <= u32::MAX
    }

    fn wide_distance(&self, time: u32) -> (d: u128)
        requires
            self.full_cycle > 0,
        ensures
            d == self.distance(time as nat),
    {
        let speed = self.speed as u128;
        let stamina = self.stamina as u128;
        let cycles = (time / self.full_cycle) as u128;
        let remain = (time % self.full_cycle) as u128;
        assert(speed * stamina <= 0xffff_ffff * 0xffff_ffff) by (nonlinear_arith)
            requires
                speed <= 0xffff_ffff,
                stamina <= 0xffff_ffff,
        ;
        let burst = speed * stamina;
        assert(burst * cycles <= 0xffff_ffff * 0xffff_ffff * 0xffff_ffff) by (nonlinear_arith)
            requires
                burst <= 0xffff_ffff * 0xffff_ffff,
                cycles <= 0xffff_ffff,
        ;
        let full = burst * cycles;
        assert(speed * remain <= 0xffff_ffff * 0xffff_ffff) by (nonlinear_arith)
            requires
                speed <= 0xffff_ffff,
                remain <= 0xffff_ffff,
        ;
        if remain > stamina {
            full + burst
        } else {
            full + speed * remain
        }
    }

    fn distance_after(&self, time: u32) -> (d: u32)
        requires
            self.can_race(time as nat),
        ensures
            d == self.distance(time as nat),
    {
        self.wide_distance(time) as u32
    }

    /// Whether the reindeer has a cycle and is no further than a `u32` can
    /// say after `time` seconds.
    pub fn may_race(&self, time: u32) -> (r: bool)
        ensures
            r == self.can_race(time as nat),
    {
        self.full_cycle > 0 && self.wide_distance(time) <= 0xffff_ffff
    }
}

/// The distance after a given time as a rule for the optimizer.
pub struct DistanceAt {
    pub time: u32,
}

impl Scoring<ReindeerPerformance> for DistanceAt {
    open spec fn fits(&self, candidate: &ReindeerPerformance) -> bool {
        candidate.can_race(self.time as nat)
    }

    open spec fn missing(&self, candidate: &ReindeerPerformance) -> Option<(usize, usize)> {
        None
    }

    open spec fn value(&self, candidate: &ReindeerPerformance) -> int {
        candidate.distance(self.time as nat) as int
    }

    fn score(&self, candidate: &ReindeerPerformance) -> (r: Result<i64, EngineError>) {
        Ok(candidate.distance_after(self.time) as i64)
    }
}

/// Counts the seconds at which a reindeer was ahead.
pub struct PointsCounter {
    points: u32,
}

impl PointsCounter {
    /// The points so far.
    pub closed spec fn count(&self) -> nat {
        self.points as nat
    }

    /// A counter at zero.
    pub fn new() -> (c: PointsCounter)
        ensures
            c.count() == 0,
    {
        PointsCounter { points: 0 }
    }

    /// One point more.
    pub fn increase(&mut self)
        requires
            old(self).count() < u32::MAX,
        ensures
            final(self).count() == old(self).count() + 1,
    {
        self.points += 1
    }

    /// The points so far.
    pub fn get(&self) -> (points: u32)
        ensures
            points == self.count(),
    {
        self.points
    }
}

/// The points as a rule for the optimizer.
pub struct MostPoints;

impl Scoring<PointsCounter> for MostPoints {
    open spec fn fits(&self, candidate: &PointsCounter) -> bool {
        true
    }

    open spec fn missing(&self, candidate: &PointsCounter) -> Option<(usize, usize)> {
        None
    }

    open spec fn value(&self, candidate: &PointsCounter) -> int {
        candidate.count() as int
    }

    fn score(&self, candidate: &PointsCounter) -> (r: Result<i64, EngineError>) {
        Ok(candidate.get() as i64)
    }
}

/// Reindeer `i` is ahead after `time` seconds: none has come further.
pub open spec fn leads(performances: Seq<ReindeerPerformance>, time: nat, i: int) -> bool {
    forall|j: int|
        0 <= j < performances.len() ==> (#[trigger] performances[j]).distance(time)
            <= performances[i].distance(time)
}

/// The points of reindeer `i` before second `time`: one for each of the
/// seconds `1 .. time` after which it is ahead.
pub open spec fn points_before(performances: Seq<ReindeerPerformance>, time: nat, i: int) -> nat
    decreases time,
{
    if time <= 1 {
        0
    } else {
        points_before(performances, (time - 1) as nat, i) + if leads(
            performances,
            (time - 1) as nat,
            i,
        ) {
            1nat
        } else {
            0nat
        }
    }
}

/// Every reindeer can race for `time` seconds.
pub open spec fn all_can_race(performances: Seq<ReindeerPerformance>, time: nat) -> bool {
    forall|j: int| 0 <= j < performances.len() ==> (#[trigger] performances[j]).can_race(time)
}

/// What the race returns, names taken as texts: without a reindeer an error,
/// else every reindeer that is ahead after `time` seconds, in the order of the
/// list, each with the distance.
pub open spec fn leaders(
    performances: Seq<ReindeerPerformance>,
    time: nat,
    r: Result<Seq<(Seq<char>, u32)>, EngineError>,
) -> bool {
    match r {
        Err(e) => e == EngineError::EmptyUniverse && performances.len() == 0,
        Ok(ahead) => exists|who: Seq<usize>|
            {
                &&& performances.len() > 0
                &&& #[trigger] who.len() == ahead.len()
                &&& ahead.len() >= 1
                &&& forall|a: int, b: int| 0 <= a < b < who.len() ==> who[a] < who[b]
                &&& forall|a: int|
                    0 <= a < who.len() ==> {
                        &&& (#[trigger] who[a]) < performances.len()
                        &&& leads(performances, time, who[a] as int)
                        &&& ahead[a].0 == performances[who[a] as int].name@
                        &&& ahead[a].1 == performances[who[a] as int].distance(time)
                    }
                &&& forall|i: int|
                    0 <= i < performances.len() && leads(performances, time, i) ==> who.contains(
                        i as usize,
                    )
            },
    }
}

/// The texts of a list of names with distances.
pub open spec fn standings(v: Seq<(String, u32)>) -> Seq<(Seq<char>, u32)> {
    v.map_values(|p: (String, u32)| (p.0@, p.1))
}

/// The texts of a result of the race.
pub open spec fn leaders_view(r: Result<Vec<(String, u32)>, EngineError>) -> Result<
    Seq<(Seq<char>, u32)>,
    EngineError,
> {
    match r {
        Ok(v) => Ok(standings(v@)),
        Err(e) => Err(e),
    }
}

/// The reindeer that race.
pub struct ReindeerRace {
    pub performances: Vec<ReindeerPerformance>,
}

impl ReindeerRace {
    /// Whether every reindeer can race for `time` seconds.
    pub fn all_may_race(&self, time: u32) -> (r: bool)
        ensures
            r == all_can_race(self.performances@, time as nat),
    {
        let mut i: usize = 0;
        while i < self.performances.len()
            invariant
                i <= self.performances.len(),
                forall|j: int| 0 <= j < i ==> (#[trigger] self.performances[j]).can_race(time as nat),
            decreases self.performances.len() - i,
        {
            if !self.performances[i].may_race(time) {
                return false;
            }
            i += 1;
        }
        true
    }

    /// Whether every reindeer can race for each number of seconds from 1 up
    /// to but not including `time`.
    pub fn all_may_race_before(&self, time: u32) -> (r: bool)
        ensures
            r == (forall|t: nat| 1 <= t < time ==> #[trigger] all_can_race(self.performances@, t)),
    {
        let mut t: u32 = 1;
        while t < time
            invariant
                1 <= t,
                forall|u: nat| 1 <= u < t ==> #[trigger] all_can_race(self.performances@, u),
            decreases time - t,
        {
            if !self.all_may_race(t) {
                assert(!all_can_race(self.performances@, t as nat));
                return false;
            }
            t += 1;
        }
        true
    }

    fn leading(&self, time: u32) -> (r: Result<Vec<usize>, EngineError>)
        requires
            all_can_race(self.performances@, time as nat),
        ensures
            match r {
                Err(e) => e == EngineError::EmptyUniverse && self.performances.len() == 0,
                Ok(who) => {
                    &&& self.performances.len() > 0
                    &&& who.len() >= 1
                    &&& forall|a: int, b: int| 0 <= a < b < who.len() ==> who[a] < who[b]
                    &&& forall|a: int|
                        0 <= a < who.len() ==> (#[trigger] who[a]) < self.performances.len()
                            && leads(self.performances@, time as nat, who[a] as int)
                    &&& forall|i: int|
                        0 <= i < self.performances.len() && leads(
                            self.performances@,
                            time as nat,
                            i,
                        ) ==> who@.contains(i as usize)
                },
            },
    {
        let scoring = DistanceAt { time };
        match optimize_ties(&self.performances, &scoring, Direction::Max) {
            Ok(t) => {
                proof {
                    let ps = self.performances@;
                    assert forall|i: int| 0 <= i < ps.len() implies (leads(ps, time as nat, i)
                        <==> scoring.value(&ps[i]) == t.score) by {
                        if scoring.value(&ps[i]) == t.score {
                            assert forall|j: int| 0 <= j < ps.len() implies (#[trigger] ps[j]).distance(
                                time as nat,
                            ) <= ps[i].distance(time as nat) by {
                                assert(!improves(
                                    Direction::Max,
                                    scoring.value(&ps[j]),
                                    t.score as int,
                                ));
                            }
                        }
                    }
                }
                Ok(t.winners)
            },
            Err(e) => {
                Err(e)
            },
        }
    }

    /// Every reindeer that is ahead after `time` seconds, with the distance.
    pub fn race_with_tie(&self, time: u32) -> (r: Result<Vec<(String, u32)>, EngineError>)
        requires
            all_can_race(self.performances@, time as nat),
        ensures
            leaders(self.performances@, time as nat, leaders_view(r)),
    {
        let who = match self.leading(time) {
            Ok(who) => who,
            Err(e) => {
                return Err(e);
            },
        };
        let mut ahead: Vec<(String, u32)> = Vec::new();
        let mut a: usize = 0;
        while a < who.len()
            invariant
                a <= who.len(),
                ahead.len() == a,
                all_can_race(self.performances@, time as nat),
                forall|a: int| 0 <= a < who.len() ==> (#[trigger] who[a]) < self.performances.len(),
                forall|b: int|
                    0 <= b < a ==> {
                        &&& (#[trigger] ahead[b]).0@ == self.performances[who[b] as int].name@
                        &&& ahead[b].1 == self.performances[who[b] as int].distance(time as nat)
                    },
            decreases who.len() - a,
        {
            let p = &self.performances[who[a]];
            ahead.push((p.name.clone(), p.distance_after(time)));
            a += 1;
        }
        proof {
            let out = standings(ahead@);
            assert forall|a: int| 0 <= a < who.len() implies {
                &&& out[a].0 == self.performances[who[a] as int].name@
                &&& out[a].1 == self.performances[who[a] as int].distance(time as nat)
            } by {}
        }
        Ok(ahead)
    }

    /// The first reindeer on the list that is ahead after `time` seconds, with
    /// the distance.
    pub fn race(&self, time: u32) -> (r: Result<(String, u32), EngineError>)
        requires
            all_can_race(self.performances@, time as nat),
        ensures
            match r {
                Err(e) => e == EngineError::EmptyUniverse && self.performances.len() == 0,
                Ok((name, distance)) => exists|i: int|
                    {
                        &&& 0 <= i < self.performances.len()
                        &&& leads(self.performances@, time as nat, i)
                        &&& name@ == (#[trigger] self.performances[i]).name@
                        &&& distance == self.performances[i].distance(time as nat)
                        &&& forall|j: int| 0 <= j < i ==> !leads(self.performances@, time as nat, j)
                    },
            },
    {
        let who = match self.leading(time) {
            Ok(who) => who,
            Err(e) => {
                return Err(e);
            },
        };
        let first = who[0];
        let p = &self.performances[first];
        proof {
            assert forall|j: int| 0 <= j < first implies !leads(
                self.performances@,
                time as nat,
                j,
            ) by {
                if leads(self.performances@, time as nat, j) {
                    let a = choose|a: int| 0 <= a < who.len() && who[a] == j as usize;
                    assert(who[0] <= who[a]);
                }
            }
        }
        Ok((p.name.clone(), p.distance_after(time)))
    }

    /// The reindeer with the most points before second `time`, the first on
    /// the list where several have as many, with its points. After each of
    /// the seconds `1 .. time` every reindeer that is ahead gets a point.
    pub fn race_mode_two(&self, time: u32) -> (r: Result<(String, u32), EngineError>)
        requires
            forall|t: nat| 1 <= t < time ==> #[trigger] all_can_race(self.performances@, t),
        ensures
            match r {
                Err(e) => e == EngineError::EmptyUniverse && self.performances.len() == 0,
                Ok((name, points)) => exists|i: int|
                    {
                        &&& 0 <= i < self.performances.len()
                        &&& name@ == (#[trigger] self.performances[i]).name@
                        &&& points == points_before(self.performances@, time as nat, i)
                        &&& forall|j: int|
                            0 <= j < self.performances.len() ==> points_before(
                                self.performances@,
                                time as nat,
                                j,
                            ) <= points
                        &&& forall|j: int|
                            0 <= j < i ==> points_before(self.performances@, time as nat, j)
                                != points
                    },
            },
    {
        let n = self.performances.len();
        if n == 0 {
            return Err(EngineError::EmptyUniverse);
        }
        let ghost ps = self.performances@;
        let mut counters: Vec<PointsCounter> = Vec::new();
        let mut i: usize = 0;
        while i < n
            invariant
                i <= n,
                counters.len() == i,
                forall|j: int| 0 <= j < i ==> (#[trigger] counters[j]).count() == 0,
            decreases n - i,
        {
            counters.push(PointsCounter::new());
            i += 1;
        }
        let mut t: u32 = 1;
        while t < time
            invariant
                1 <= t,
                t == 1 || t <= time,
                n == self.performances.len(),
                n > 0,
                ps == self.performances@,
                counters.len() == n,
                forall|t: nat| 1 <= t < time ==> #[trigger] all_can_race(self.performances@, t),
                forall|j: int|
                    0 <= j < n ==> (#[trigger] counters[j]).count() == points_before(ps, t as nat, j),
                forall|j: int| 0 <= j < n ==> #[trigger] points_before(ps, t as nat, j) < t,
            decreases time - t,
        {
            let who = match self.leading(t) {
                Ok(who) => who,
                Err(e) => {
                    return Err(e);
                },
            };
            let mut a: usize = 0;
            while a < who.len()
                invariant
                    a <= who.len(),
                    1 <= t < time,
                    n == ps.len(),
                    counters.len() == n,
                    forall|a: int, b: int| 0 <= a < b < who.len() ==> who[a] < who[b],
                    forall|a: int| 0 <= a < who.len() ==> (#[trigger] who[a]) < n,
                    forall|j: int| 0 <= j < n ==> #[trigger] points_before(ps, t as nat, j) < t,
                    forall|j: int|
                        0 <= j < n ==> (#[trigger] counters[j]).count() == points_before(
                            ps,
                            t as nat,
                            j,
                        ) + if who@.take(a as int).contains(j as usize) {
                            1nat
                        } else {
                            0nat
                        },
                decreases who.len() - a,
            {
                let w = who[a];
                proof {
                    let before = who@.take(a as int);
                    let after = who@.take(a + 1);
                    assert(!before.contains(w)) by {
                        if before.contains(w) {
                            let k = choose|k: int| 0 <= k < before.len() && before[k] == w;
                            assert(who[k] < who[a as int]);
                        }
                    }
                    assert forall|x: usize| after.contains(x) <==> (before.contains(x) || x == w) by {
                        if before.contains(x) {
                            let k = choose|k: int| 0 <= k < before.len() && before[k] == x;
                            assert(after[k] == x);
                        }
                        if x == w {
                            assert(after[a as int] == w);
                        }
                    }
                }
                counters[w].increase();
                a += 1;
            }
            proof {
                assert(who@.take(who.len() as int) =~= who@);
                assert forall|j: int| 0 <= j < n implies (who@.contains(j as usize) <==> leads(
                    ps,
                    t as nat,
                    j,
                )) by {
                    if who@.contains(j as usize) {
                        let k = choose|k: int| 0 <= k < who.len() && who[k] == j as usize;
                        assert(leads(ps, t as nat, who[k] as int));
                    }
                }
            }
            let ghost reached = t as nat;
            t += 1;
            proof {
                assert forall|j: int| 0 <= j < n implies #[trigger] points_before(ps, t as nat, j)
                    < t by {
                    assert(points_before(ps, reached, j) < reached);
                }
                assert forall|j: int| 0 <= j < n implies (#[trigger] counters[j]).count()
                    == points_before(ps, t as nat, j) by {}
            }
        }
        let found = optimize(&counters, &MostPoints, Direction::Max);
        match found {
            Ok(w) => {
                proof {
                    assert forall|j: int| 0 <= j < n implies points_before(ps, time as nat, j)
                        == MostPoints.value(&counters[j]) by {}
                    assert forall|j: int| 0 <= j < n implies points_before(ps, time as nat, j)
                        <= w.score by {}
                    assert forall|j: int| 0 <= j < w.index implies points_before(
                        ps,
                        time as nat,
                        j,
                    ) != w.score by {}
                }
                Ok((self.performances[w.index].name.clone(), counters[w.index].get()))
            },
            Err(e) => {
                Err(e)
            },
        }
    }
}

/// The reindeer that the groups of a matched line spell out: a name and three
/// numbers that are `u32`, the cycle being the seconds of flight and of rest
/// together.
pub open spec fn reindeer_of_groups(groups: Seq<Option<Seq<char>>>) -> Option<
    (Seq<char>, nat, nat, nat),
> {
    if groups.len() < 4 {
        None
    } else {
        match (
            group_text(groups, 1),
            group_count(groups, 2),
            group_count(groups, 3),
            group_count(groups, 4),
        ) {
            (Some(name), Some(speed), Some(stamina), Some(rest)) => if stamina + rest <= u32::MAX {
                Some((name, speed, stamina, stamina + rest))
            } else {
                None
            },
            _ => None,
        }
    }
}

/// The number that group `i` writes, where it is a `u32`.
pub open spec fn group_count(groups: Seq<Option<Seq<char>>>, i: int) -> Option<nat> {
    match group_text(groups, i) {
        Some(t) => match unsigned_decimal(t) {
            Some(v) => if v <= u32::MAX {
                Some(v)
            } else {
                None
            },
            None => None,
        },
        None => None,
    }
}

fn count_of(groups: &Vec<Option<String>>, i: usize) -> (r: Option<u32>)
    ensures
        match group_count(groups_view(Some(*groups))->0, i as int) {
            Some(v) => r == Some(v as u32),
            None => r is None,
        },
{
    match group(groups, i) {
        Some(t) => match parse_unsigned(t, 0xffff_ffff) {
            Some(v) => Some(v as u32),
            None => None,
        },
        None => None,
    }
}

/// The reindeer that a line spells out, going by what the pattern finds in it.
pub open spec fn reindeer_of_line(line: Seq<char>) -> Option<(Seq<char>, nat, nat, nat)> {
    match regex_captures(
        r"(\w+) can fly (\d+) km/s for (\d+) seconds, but then must rest for (\d+) seconds.$"@,
        line,
    ) {
        Some(groups) => reindeer_of_groups(groups),
        None => None,
    }
}

impl ReindeerPerformance {
    /// Reads a reindeer from the groups of a matched line.
    pub fn from_captures(groups: &Vec<Option<String>>) -> (r: Option<ReindeerPerformance>)
        ensures
            match reindeer_of_groups(groups_view(Some(*groups))->0) {
                Some(v) => r matches Some(p) && p@ == v,
                None => r is None,
            },
    {
        if groups.len() < 4 {
            return None;
        }
        match (group(groups, 1), count_of(groups, 2), count_of(groups, 3), count_of(groups, 4)) {
            (Some(name), Some(speed), Some(stamina), Some(rest)) => {
                if rest > 0xffff_ffff - stamina {
                    return None;
                }
                Some(
                    ReindeerPerformance {
                        name: String::from_str(name),
                        speed,
                        stamina,
                        full_cycle: stamina + rest,
                    },
                )
            },
            _ => None,
        }
    }

    /// Reads a line of the form
    /// `A can fly 1 km/s for 2 seconds, but then must rest for 3 seconds.`
    pub fn from_str(s: &str) -> (r: Result<ReindeerPerformance, ParseError>)
        ensures
            match reindeer_of_line(s@) {
                Some(v) => r matches Ok(p) && p@ == v,
                None => r matches Err(e) && e.message@ == "Reindeer performance input: \""@ + s@
                    + "\" is not in valid format"@,
            },
    {
        let found = match captures(
            r"(\w+) can fly (\d+) km/s for (\d+) seconds, but then must rest for (\d+) seconds.$",
            s,
        ) {
            Some(groups) => ReindeerPerformance::from_captures(&groups),
            None => None,
        };
        match found {
            Some(p) => Ok(p),
            None => Err(
                parse_error("Reindeer performance input: \"", s, "\" is not in valid format"),
            ),
        }
    }
}

} // verus!
