//! The optimizer: scores every candidate once and keeps the best.
//!
//! A scoring rule is any type that implements [`Scoring`] for the candidates
//! at hand. The driver runs through the candidates in order, stops at the
//! first lookup that fails, and otherwise reports the least or greatest score,
//! with the first candidate that attains it or with all of them.

use vstd::prelude::*;

verus! {

/// Which end of the scores is wanted.
#[derive(Clone, Copy, Debug, PartialEq, Eq, Structural)]
pub enum Direction {
    Min,
    Max,
}

/// Why a search has no result.
#[derive(Clone, Copy, Debug, PartialEq, Eq, Structural)]
pub enum EngineError {
    /// A scoring rule looked up a pair that the weight table lacks.
    MissingWeight { from: usize, to: usize },
    /// There was no candidate to score.
    EmptyUniverse,
}

/// A rule that gives a candidate of type `C` a score.
pub trait Scoring<C> {
    /// Whether the rule can be worked out on this candidate within the
    /// machine's limits.
    spec fn fits(&self, candidate: &C) -> bool;

    /// The first pair that the rule looks up on this candidate and does not
    /// find, if there is one.
    spec fn missing(&self, candidate: &C) -> Option<(usize, usize)>;

    /// The score of a candidate on which nothing is missing.
    spec fn value(&self, candidate: &C) -> int;

    /// Scores one candidate; changes neither the rule nor the candidate.
    fn score(&self, candidate: &C) -> (r: Result<i64, EngineError>)
        requires
            self.fits(candidate),
        ensures
            match self.missing(candidate) {
                Some((from, to)) => r == Err::<i64, EngineError>(
                    EngineError::MissingWeight { from, to },
                ),
                None => r matches Ok(s) && s == self.value(candidate),
            },
    ;
}

/// The best score with the first candidate that attains it.
#[derive(Clone, Copy, Debug, PartialEq, Eq, Structural)]
pub struct Winner {
    pub score: i64,
    pub index: usize,
}

/// The best score with every candidate that attains it, by rising index.
#[derive(Debug, PartialEq, Eq)]
pub struct TieSet {
    pub score: i64,
    pub winners: Vec<usize>,
}

/// `a` is strictly better than `b`.
pub open spec fn improves(direction: Direction, a: int, b: int) -> bool {
    match direction {
        Direction::Min => a < b,
        Direction::Max => a > b,
    }
}

/// Nothing is missing on the candidates before index `k`.
pub open spec fn defined_before<C, S: Scoring<C>>(scoring: &S, candidates: Seq<C>, k: int) -> bool {
    forall|j: int| 0 <= j < k ==> (#[trigger] scoring.missing(&candidates[j])) is None
}

/// Every candidate that the driver reaches can be scored: all up to the first
/// one on which something is missing.
pub open spec fn reachable_fit<C, S: Scoring<C>>(scoring: &S, candidates: Seq<C>) -> bool {
    forall|k: int|
        0 <= k < candidates.len() && defined_before(scoring, candidates, k) ==> #[trigger] scoring.fits(
            &candidates[k],
        )
}

/// The search stops with `e`: there is no candidate, or `e` names what is
/// missing on the first candidate on which anything is.
pub open spec fn fails_with<C, S: Scoring<C>>(
    scoring: &S,
    candidates: Seq<C>,
    e: EngineError,
) -> bool {
    if candidates.len() == 0 {
        e == EngineError::EmptyUniverse
    } else {
        exists|k: int|
            {
                &&& 0 <= k < candidates.len()
                &&& defined_before(scoring, candidates, k)
                &&& #[trigger] scoring.missing(&candidates[k]) matches Some((from, to))
                &&& e == (EngineError::MissingWeight { from, to })
            }
    }
}

/// `score` is attained by some candidate and no candidate improves on it.
pub open spec fn is_best<C, S: Scoring<C>>(
    scoring: &S,
    candidates: Seq<C>,
    direction: Direction,
    score: int,
) -> bool {
    &&& exists|k: int|
        0 <= k < candidates.len() && #[trigger] scoring.value(&candidates[k]) == score
    &&& forall|k: int|
        0 <= k < candidates.len() ==> !improves(
            direction,
            #[trigger] scoring.value(&candidates[k]),
            score,
        )
}

/// What single-winner mode returns.
pub open spec fn single_winner<C, S: Scoring<C>>(
    scoring: &S,
    candidates: Seq<C>,
    direction: Direction,
    r: Result<Winner, EngineError>,
) -> bool {
    match r {
        Err(e) => fails_with(scoring, candidates, e),
        Ok(w) => {
            &&& defined_before(scoring, candidates, candidates.len() as int)
            &&& w.index < candidates.len()
            &&& scoring.value(&candidates[w.index as int]) == w.score
            &&& is_best(scoring, candidates, direction, w.score as int)
            &&& forall|k: int|
                0 <= k < w.index ==> #[trigger] scoring.value(&candidates[k]) != w.score
        },
    }
}

/// What tie-set mode returns, the winners taken as a sequence.
pub open spec fn tie_set<C, S: Scoring<C>>(
    scoring: &S,
    candidates: Seq<C>,
    direction: Direction,
    r: Result<(int, Seq<usize>), EngineError>,
) -> bool {
    match r {
        Err(e) => fails_with(scoring, candidates, e),
        Ok((score, winners)) => {
            &&& defined_before(scoring, candidates, candidates.len() as int)
            &&& is_best(scoring, candidates, direction, score)
            &&& forall|i: int, j: int| 0 <= i < j < winners.len() ==> winners[i] < winners[j]
            &&& forall|i: int|
                0 <= i < winners.len() ==> (#[trigger] winners[i]) < candidates.len()
                    && scoring.value(&candidates[winners[i] as int]) == score
            &&& forall|k: int|
                0 <= k < candidates.len() && #[trigger] scoring.value(&candidates[k]) == score
                    ==> winners.contains(k as usize)
        },
    }
}

/// The sequence form of a tie-set result.
pub open spec fn tie_view(r: Result<TieSet, EngineError>) -> Result<(int, Seq<usize>), EngineError> {
    match r {
        Ok(t) => Ok((t.score as int, t.winners@)),
        Err(e) => Err(e),
    }
}

fn better(direction: Direction, a: i64, b: i64) -> (r: bool)
    ensures
        r == improves(direction, a as int, b as int),
{
    match direction {
        Direction::Min => a < b,
        Direction::Max => a > b,
    }
}

/// Single-winner mode: the best score over `candidates` and the index of the
/// first candidate that attains it.
pub fn optimize<C, S: Scoring<C>>(candidates: &Vec<C>, scoring: &S, direction: Direction) -> (r:
    Result<Winner, EngineError>)
    requires
        reachable_fit(scoring, candidates@),
    ensures
        single_winner(scoring, candidates@, direction, r),
{
    if candidates.len() == 0 {
        return Err(EngineError::EmptyUniverse);
    }
    let mut best: i64 = match scoring.score(&candidates[0]) {
        Ok(s) => s,
        Err(e) => {
            return Err(e);
        },
    };
    let mut index: usize = 0;
    let mut k: usize = 1;
    while k < candidates.len()
        invariant
            reachable_fit(scoring, candidates@),
            1 <= k <= candidates.len(),
            defined_before(scoring, candidates@, k as int),
            index < k,
            scoring.value(&candidates[index as int]) == best,
            forall|j: int|
                0 <= j < k ==> !improves(direction, #[trigger] scoring.value(&candidates[j]), best as int),
            forall|j: int| 0 <= j < index ==> #[trigger] scoring.value(&candidates[j]) != best,
        decreases candidates.len() - k,
    {
        match scoring.score(&candidates[k]) {
            Ok(s) => {
                if better(direction, s, best) {
                    best = s;
                    index = k;
                }
            },
            Err(e) => {
                return Err(e);
            },
        }
        k += 1;
    }
    Ok(Winner { score: best, index })
}

/// Tie-set mode: the best score over `candidates` and the indices of all
/// candidates that attain it, in the order of the candidates.
pub fn optimize_ties<C, S: Scoring<C>>(
    candidates: &Vec<C>,
    scoring: &S,
    direction: Direction,
) -> (r: Result<TieSet, EngineError>)
    requires
        reachable_fit(scoring, candidates@),
    ensures
        tie_set(scoring, candidates@, direction, tie_view(r)),
        r matches Ok(t) ==> t.winners.len() >= 1,
{
    if candidates.len() == 0 {
        return Err(EngineError::EmptyUniverse);
    }
    let mut best: i64 = match scoring.score(&candidates[0]) {
        Ok(s) => s,
        Err(e) => {
            return Err(e);
        },
    };
    let mut winners: Vec<usize> = Vec::new();
    winners.push(0);
    assert(winners@[0] == 0);
    let mut k: usize = 1;
    while k < candidates.len()
        invariant
            reachable_fit(scoring, candidates@),
            1 <= k <= candidates.len(),
            defined_before(scoring, candidates@, k as int),
            winners.len() >= 1,
            forall|j: int|
                0 <= j < k ==> !improves(direction, #[trigger] scoring.value(&candidates[j]), best as int),
            forall|i: int, j: int| 0 <= i < j < winners.len() ==> winners[i] < winners[j],
            forall|i: int|
                0 <= i < winners.len() ==> (#[trigger] winners[i]) < k && scoring.value(
                    &candidates[winners[i] as int],
                ) == best,
            forall|j: int|
                0 <= j < k && #[trigger] scoring.value(&candidates[j]) == best ==> winners@.contains(
                    j as usize,
                ),
        decreases candidates.len() - k,
    {
        match scoring.score(&candidates[k]) {
            Ok(s) => {
                if better(direction, s, best) {
                    best = s;
                    winners = Vec::new();
                    winners.push(k);
                    assert(winners@[0] == k);
                } else if s == best {
                    let ghost before = winners@;
                    winners.push(k);
                    assert(winners@[before.len() as int] == k);
                    assert(forall|j: int| 0 <= j < before.len() ==> winners@[j] == before[j]);
                }
            },
            Err(e) => {
                return Err(e);
            },
        }
        k += 1;
    }
    proof {
        assert(scoring.value(&candidates[winners[0] as int]) == best);
    }
    Ok(TieSet { score: best, winners })
}

/// A search on given candidates can stop with one error only.
proof fn lemma_failure_unique<C, S: Scoring<C>>(
    scoring: &S,
    candidates: Seq<C>,
    e1: EngineError,
    e2: EngineError,
)
    requires
        fails_with(scoring, candidates, e1),
        fails_with(scoring, candidates, e2),
    ensures
        e1 == e2,
{
}

/// A search that stops with an error has no best score.
proof fn lemma_failure_excludes_success<C, S: Scoring<C>>(
    scoring: &S,
    candidates: Seq<C>,
    e: EngineError,
)
    requires
        fails_with(scoring, candidates, e),
        defined_before(scoring, candidates, candidates.len() as int),
    ensures
        candidates.len() == 0,
{
}

/// A best score is the score of a candidate, so there is one.
proof fn lemma_best_is_attained<C, S: Scoring<C>>(
    scoring: &S,
    candidates: Seq<C>,
    direction: Direction,
    score: int,
)
    requires
        is_best(scoring, candidates, direction, score),
    ensures
        candidates.len() > 0,
{
    let k = choose|k: int|
        0 <= k < candidates.len() && #[trigger] scoring.value(&candidates[k]) == score;
    assert(0 <= k < candidates.len());
}

/// Given candidates have one best score only.
proof fn lemma_best_unique<C, S: Scoring<C>>(
    scoring: &S,
    candidates: Seq<C>,
    direction: Direction,
    s1: int,
    s2: int,
)
    requires
        is_best(scoring, candidates, direction, s1),
        is_best(scoring, candidates, direction, s2),
    ensures
        s1 == s2,
{
}

/// Two rising sequences with the same members are the same sequence.
proof fn lemma_rising_unique(a: Seq<usize>, b: Seq<usize>)
    requires
        forall|i: int, j: int| 0 <= i < j < a.len() ==> a[i] < a[j],
        forall|i: int, j: int| 0 <= i < j < b.len() ==> b[i] < b[j],
        forall|x: usize| a.contains(x) <==> b.contains(x),
    ensures
        a == b,
    decreases a.len(),
{
    if a.len() == 0 {
        if b.len() > 0 {
            assert(b.contains(b[0]));
        }
    } else {
        let top = a.last();
        assert(a.contains(top));
        let at = choose|i: int| 0 <= i < b.len() && b[i] == top;
        if at != b.len() - 1 {
            assert(b.contains(b.last()));
        }
        let a0 = a.drop_last();
        let b0 = b.drop_last();
        assert forall|x: usize| a0.contains(x) <==> b0.contains(x) by {
            if a0.contains(x) {
                let i = choose|i: int| 0 <= i < a0.len() && a0[i] == x;
                assert(a.contains(x));
                let j = choose|j: int| 0 <= j < b.len() && b[j] == x;
                assert(b0[j] == x);
            }
            if b0.contains(x) {
                assert(b.contains(x));
                let j = choose|j: int| 0 <= j < a.len() && a[j] == x;
                assert(a0[j] == x);
            }
        }
        lemma_rising_unique(a0, b0);
        assert(a =~= a0.push(top));
    }
}

/// Single-winner mode is a function of its input: whatever meets its contract
/// on given candidates, rule and direction is one and the same result, so a
/// second run returns what the first did.
pub proof fn lemma_single_winner_deterministic<C, S: Scoring<C>>(
    scoring: &S,
    candidates: Seq<C>,
    direction: Direction,
    r1: Result<Winner, EngineError>,
    r2: Result<Winner, EngineError>,
)
    requires
        single_winner(scoring, candidates, direction, r1),
        single_winner(scoring, candidates, direction, r2),
    ensures
        r1 == r2,
{
    match (r1, r2) {
        (Err(e1), Err(e2)) => {
            lemma_failure_unique(scoring, candidates, e1, e2);
        },
        (Err(e), Ok(_)) => {
            lemma_failure_excludes_success(scoring, candidates, e);
        },
        (Ok(_), Err(e)) => {
            lemma_failure_excludes_success(scoring, candidates, e);
        },
        (Ok(w1), Ok(w2)) => {
            lemma_best_unique(scoring, candidates, direction, w1.score as int, w2.score as int);
        },
    }
}

/// Tie-set mode is a function of its input: whatever meets its contract on
/// given candidates, rule and direction has the same score and the same
/// winners in the same order.
pub proof fn lemma_tie_set_deterministic<C, S: Scoring<C>>(
    scoring: &S,
    candidates: Seq<C>,
    direction: Direction,
    r1: Result<(int, Seq<usize>), EngineError>,
    r2: Result<(int, Seq<usize>), EngineError>,
)
    requires
        tie_set(scoring, candidates, direction, r1),
        tie_set(scoring, candidates, direction, r2),
    ensures
        r1 == r2,
{
    match (r1, r2) {
        (Err(e1), Err(e2)) => {
            lemma_failure_unique(scoring, candidates, e1, e2);
        },
        (Err(e), Ok((s, _))) => {
            lemma_failure_excludes_success(scoring, candidates, e);
            lemma_best_is_attained(scoring, candidates, direction, s);
        },
        (Ok((s, _)), Err(e)) => {
            lemma_failure_excludes_success(scoring, candidates, e);
            lemma_best_is_attained(scoring, candidates, direction, s);
        },
        (Ok((s1, w1)), Ok((s2, w2))) => {
            lemma_best_unique(scoring, candidates, direction, s1, s2);
            assert forall|x: usize| w1.contains(x) <==> w2.contains(x) by {
                if w1.contains(x) {
                    let i = choose|i: int| 0 <= i < w1.len() && w1[i] == x;
                    assert(scoring.value(&candidates[w1[i] as int]) == s2);
                }
                if w2.contains(x) {
                    let i = choose|i: int| 0 <= i < w2.len() && w2[i] == x;
                    assert(scoring.value(&candidates[w2[i] as int]) == s1);
                }
            }
            lemma_rising_unique(w1, w2);
        },
    }
}

/// Every winner of tie-set mode has exactly the best score, and where there is
/// a candidate and nothing is missing there is a winner.
pub proof fn lemma_tie_set_members<C, S: Scoring<C>>(
    scoring: &S,
    candidates: Seq<C>,
    direction: Direction,
    score: int,
    winners: Seq<usize>,
)
    requires
        tie_set(scoring, candidates, direction, Ok((score, winners))),
    ensures
        winners.len() >= 1,
        is_best(scoring, candidates, direction, score),
        forall|i: int|
            0 <= i < winners.len() ==> scoring.value(&candidates[(#[trigger] winners[i]) as int])
                == score,
{
}

/// The two modes agree: on the same candidates, rule and direction they find
/// the same best score, and the single winner is the first of the tied
/// winners.
pub proof fn lemma_winner_leads_ties<C, S: Scoring<C>>(
    scoring: &S,
    candidates: Seq<C>,
    direction: Direction,
    winner: Winner,
    score: int,
    winners: Seq<usize>,
)
    requires
        single_winner(scoring, candidates, direction, Ok(winner)),
        tie_set(scoring, candidates, direction, Ok((score, winners))),
    ensures
        winner.score == score,
        winners.len() >= 1,
        winners[0] == winner.index,
{
    lemma_best_unique(scoring, candidates, direction, winner.score as int, score);
    lemma_tie_set_members(scoring, candidates, direction, score, winners);
    assert(winners.contains(winner.index));
    let at = choose|i: int| 0 <= i < winners.len() && winners[i] == winner.index;
    assert(scoring.value(&candidates[winners[0] as int]) == score);
    if at != 0 {
        assert(winners[0] < winners[at]);
    }
}

} // verus!
