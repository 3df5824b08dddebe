//! Mixing a hundred spoonfuls of ingredients into the best cookie.
//!
//! A mixture is a split of the total among the ingredients. Its score is the
//! product of four properties, each the sum over the ingredients of quantity
//! times what a spoonful has of it; a mixture with a negative property, or
//! one that misses the calorie target when that is asked for, scores 0.

use vstd::prelude::*;
use vstd::string::*;
use crate::allocation::all_combinations;
use crate::allocation::quantities;
use crate::allocation::splits;
use crate::allocation::total_quantity;
use crate::optimizer::improves;
use crate::optimizer::optimize;
use crate::optimizer::Direction;
use crate::optimizer::EngineError;
use crate::optimizer::Scoring;
use crate::pattern::captures;
use crate::pattern::group;
use crate::pattern::group_text;
use crate::pattern::groups_view;
use crate::pattern::regex_captures;
use crate::text::parse_error;
use crate::text::parse_signed;
use crate::text::signed_decimal;
use crate::text::ParseError;

verus! {

/// What a spoonful of an ingredient has of each property.
#[derive(Debug, PartialEq, Eq)]
pub struct Ingredients {
    pub name: String,
    pub capacity: i64,
    pub durability: i64,
    pub flavor: i64,
    pub texture: i64,
    pub calories: i64,
}

/// The properties of an ingredient.
#[derive(Clone, Copy, Debug, PartialEq, Eq, Structural)]
pub enum Property {
    Capacity,
    Durability,
    Flavor,
    Texture,
    Calories,
}

/// The calories that a mixture must have where the target is asked for.
pub const CALORIE_TARGET: i64 = 500;

/// The spoonfuls that every mixture is made of.
pub const SPOONFULS: u32 = 100;

impl Ingredients {
    /// What a spoonful has of `property`.
    pub open spec fn amount_of(&self, property: Property) -> int {
        match property {
            Property::Capacity => self.capacity as int,
            Property::Durability => self.durability as int,
            Property::Flavor => self.flavor as int,
            Property::Texture => self.texture as int,
            Property::Calories => self.calories as int,
        }
    }

    /// The name and the five properties of an ingredient.
    pub open spec fn view(&self) -> (Seq<char>, int, int, int, int, int) {
        (
            self.name@,
            self.capacity as int,
            self.durability as int,
            self.flavor as int,
            self.texture as int,
            self.calories as int,
        )
    }

    fn amount(&self, property: Property) -> (a: i64)
        ensures
            a == self.amount_of(property),
    {
        match property {
            Property::Capacity => self.capacity,
            Property::Durability => self.durability,
            Property::Flavor => self.flavor,
            Property::Texture => self.texture,
            Property::Calories => self.calories,
        }
    }
}

/// The quantity of ingredient `i` in a mixture: an ingredient that the
/// mixture does not list has none.
pub open spec fn quantity(mixture: Seq<nat>, i: int) -> nat {
    if 0 <= i < mixture.len() {
        mixture[i]
    } else {
        0
    }
}

/// What the first `count` ingredients give the mixture of `property`.
pub open spec fn aggregate(
    ingredients: Seq<Ingredients>,
    mixture: Seq<nat>,
    property: Property,
    count: nat,
) -> int
    decreases count,
{
    if count == 0 {
        0
    } else {
        aggregate(ingredients, mixture, property, (count - 1) as nat) + quantity(mixture, count - 1)
            * ingredients[count - 1].amount_of(property)
    }
}

/// What the mixture has of `property`.
pub open spec fn property_total(
    ingredients: Seq<Ingredients>,
    mixture: Seq<nat>,
    property: Property,
) -> int {
    aggregate(ingredients, mixture, property, ingredients.len())
}

/// The score of a mixture.
pub open spec fn profile_score(
    ingredients: Seq<Ingredients>,
    mixture: Seq<nat>,
    filter_calories: bool,
) -> int {
    let capacity = property_total(ingredients, mixture, Property::Capacity);
    let durability = property_total(ingredients, mixture, Property::Durability);
    let flavor = property_total(ingredients, mixture, Property::Flavor);
    let texture = property_total(ingredients, mixture, Property::Texture);
    if filter_calories && property_total(ingredients, mixture, Property::Calories)
        != CALORIE_TARGET {
        0
    } else if capacity < 0 || durability < 0 || flavor < 0 || texture < 0 {
        0
    } else {
        capacity * durability * flavor * texture
    }
}

/// Adding up `property` stays within `i64`: each ingredient's share and each
/// running total.
pub open spec fn total_fits(
    ingredients: Seq<Ingredients>,
    mixture: Seq<nat>,
    property: Property,
) -> bool {
    forall|count: nat|
        count <= ingredients.len() ==> {
            &&& i64::MIN <= #[trigger] aggregate(ingredients, mixture, property, count) <= i64::MAX
            &&& count < ingredients.len() ==> i64::MIN <= quantity(mixture, count as int)
                * ingredients[count as int].amount_of(property) <= i64::MAX
        }
}

/// Scoring the mixture stays within `i64`: the totals of the properties that
/// are looked at and, where they are multiplied, each product on the way.
pub open spec fn profile_fits(
    ingredients: Seq<Ingredients>,
    mixture: Seq<nat>,
    filter_calories: bool,
) -> bool {
    let capacity = property_total(ingredients, mixture, Property::Capacity);
    let durability = property_total(ingredients, mixture, Property::Durability);
    let flavor = property_total(ingredients, mixture, Property::Flavor);
    let texture = property_total(ingredients, mixture, Property::Texture);
    &&& total_fits(ingredients, mixture, Property::Capacity)
    &&& total_fits(ingredients, mixture, Property::Durability)
    &&& total_fits(ingredients, mixture, Property::Flavor)
    &&& total_fits(ingredients, mixture, Property::Texture)
    &&& filter_calories ==> total_fits(ingredients, mixture, Property::Calories)
    &&& (capacity >= 0 && durability >= 0 && flavor >= 0 && texture >= 0 && (filter_calories
        ==> property_total(ingredients, mixture, Property::Calories) == CALORIE_TARGET)) ==> {
        &&& capacity * durability <= i64::MAX
        &&& capacity * durability * flavor <= i64::MAX
        &&& capacity * durability * flavor * texture <= i64::MAX
    }
}

/// The quantities of a mixture as numbers.
pub open spec fn spoons(props: Seq<u32>) -> Seq<nat> {
    props.map_values(|q: u32| q as nat)
}

fn total(ingredients: &[Ingredients], props: &Vec<u32>, property: Property) -> (t: i64)
    requires
        total_fits(ingredients@, spoons(props@), property),
    ensures
        t == property_total(ingredients@, spoons(props@), property),
{
    let mut t: i64 = 0;
    let mut i: usize = 0;
    while i < ingredients.len()
        invariant
            i <= ingredients.len(),
            total_fits(ingredients@, spoons(props@), property),
            t == aggregate(ingredients@, spoons(props@), property, i as nat),
        decreases ingredients.len() - i,
    {
        let q: i64 = if i < props.len() {
            props[i] as i64
        } else {
            0
        };
        let a = ingredients[i].amount(property);
        assert(i64::MIN <= aggregate(ingredients@, spoons(props@), property, (i + 1) as nat)
            <= i64::MAX);
        assert(i64::MIN <= quantity(spoons(props@), i as int) * ingredients@[i as int].amount_of(
            property,
        ) <= i64::MAX);
        t = t + q * a;
        i += 1;
    }
    t
}

/// The score of the mixture `props`, entry `i` being the quantity of
/// `ingredients[i]`.
pub fn get_score(ingredients: &[Ingredients], props: &Vec<u32>, filter_calories: bool) -> (score:
    i64)
    requires
        profile_fits(ingredients@, spoons(props@), filter_calories),
    ensures
        score == profile_score(ingredients@, spoons(props@), filter_calories),
{
    let capacity = total(ingredients, props, Property::Capacity);
    let durability = total(ingredients, props, Property::Durability);
    let flavor = total(ingredients, props, Property::Flavor);
    let texture = total(ingredients, props, Property::Texture);
    if filter_calories && total(ingredients, props, Property::Calories) != CALORIE_TARGET {
        return 0;
    }
    if capacity < 0 || durability < 0 || flavor < 0 || texture < 0 {
        return 0;
    }
    assert(0 <= capacity * durability) by (nonlinear_arith)
        requires
            0 <= capacity,
            0 <= durability,
    ;
    let two = capacity * durability;
    assert(0 <= two * flavor) by (nonlinear_arith)
        requires
            0 <= two,
            0 <= flavor,
    ;
    let three = two * flavor;
    assert(0 <= three * texture) by (nonlinear_arith)
        requires
            0 <= three,
            0 <= texture,
    ;
    three * texture
}

/// What ingredient `i` gives the mixture of `property`.
pub open spec fn share(
    ingredients: Seq<Ingredients>,
    mixture: Seq<nat>,
    property: Property,
    i: nat,
) -> int {
    quantity(mixture, i as int) * ingredients[i as int].amount_of(property)
}

fn checked_total(ingredients: &[Ingredients], props: &Vec<u32>, property: Property) -> (r: Option<
    i64,
>)
    ensures
        r == if total_fits(ingredients@, spoons(props@), property) {
            Some(property_total(ingredients@, spoons(props@), property) as i64)
        } else {
            None
        },
{
    let ghost mixture = spoons(props@);
    let mut t: i64 = 0;
    let mut i: usize = 0;
    while i < ingredients.len()
        invariant
            i <= ingredients.len(),
            mixture == spoons(props@),
            t == aggregate(ingredients@, mixture, property, i as nat),
            forall|count: nat|
                count <= i ==> i64::MIN <= #[trigger] aggregate(
                    ingredients@,
                    mixture,
                    property,
                    count,
                ) <= i64::MAX,
            forall|count: nat|
                count < i ==> i64::MIN <= #[trigger] share(ingredients@, mixture, property, count)
                    <= i64::MAX,
        decreases ingredients.len() - i,
    {
        let q: i64 = if i < props.len() {
            props[i] as i64
        } else {
            0
        };
        assert(q == quantity(mixture, i as int));
        let a = ingredients[i].amount(property);
        let ghost here = aggregate(ingredients@, mixture, property, i as nat);
        let ghost next = aggregate(ingredients@, mixture, property, (i + 1) as nat);
        assert(share(ingredients@, mixture, property, i as nat) == q * a);
        assert(next == here + q * a);
        let sum = match q.checked_mul(a) {
            Some(share) => t.checked_add(share),
            None => None,
        };
        match sum {
            Some(s) => {
                t = s;
            },
            None => {
                assert(!(i64::MIN <= q * a <= i64::MAX) || !(i64::MIN <= next <= i64::MAX));
                assert(!total_fits(ingredients@, mixture, property)) by {
                    if total_fits(ingredients@, mixture, property) {
                        assert(i64::MIN <= here <= i64::MAX);
                        assert(i64::MIN <= next <= i64::MAX);
                    }
                }
                return None;
            },
        }
        i += 1;
    }
    proof {
        assert forall|count: nat| count <= ingredients@.len() implies {
            &&& i64::MIN <= #[trigger] aggregate(ingredients@, mixture, property, count)
                <= i64::MAX
            &&& count < ingredients@.len() ==> i64::MIN <= quantity(mixture, count as int)
                * ingredients@[count as int].amount_of(property) <= i64::MAX
        } by {
            if count < ingredients@.len() {
                assert(i64::MIN <= share(ingredients@, mixture, property, count) <= i64::MAX);
            }
        }
    }
    Some(t)
}

/// The score of the mixture `props`, where scoring it stays within `i64`.
pub fn checked_score(ingredients: &[Ingredients], props: &Vec<u32>, filter_calories: bool) -> (r:
    Option<i64>)
    ensures
        r == if profile_fits(ingredients@, spoons(props@), filter_calories) {
            Some(profile_score(ingredients@, spoons(props@), filter_calories) as i64)
        } else {
            None
        },
{
    let capacity = match checked_total(ingredients, props, Property::Capacity) {
        Some(t) => t,
        None => {
            return None;
        },
    };
    let durability = match checked_total(ingredients, props, Property::Durability) {
        Some(t) => t,
        None => {
            return None;
        },
    };
    let flavor = match checked_total(ingredients, props, Property::Flavor) {
        Some(t) => t,
        None => {
            return None;
        },
    };
    let texture = match checked_total(ingredients, props, Property::Texture) {
        Some(t) => t,
        None => {
            return None;
        },
    };
    if filter_calories {
        match checked_total(ingredients, props, Property::Calories) {
            Some(calories) => {
                if calories != CALORIE_TARGET {
                    return Some(0);
                }
            },
            None => {
                return None;
            },
        }
    }
    if capacity < 0 || durability < 0 || flavor < 0 || texture < 0 {
        return Some(0);
    }
    assert(0 <= capacity * durability) by (nonlinear_arith)
        requires
            0 <= capacity,
            0 <= durability,
    ;
    let two = match capacity.checked_mul(durability) {
        Some(p) => p,
        None => {
            return None;
        },
    };
    assert(0 <= two * flavor) by (nonlinear_arith)
        requires
            0 <= two,
            0 <= flavor,
    ;
    let three = match two.checked_mul(flavor) {
        Some(p) => p,
        None => {
            return None;
        },
    };
    assert(0 <= three * texture) by (nonlinear_arith)
        requires
            0 <= three,
            0 <= texture,
    ;
    three.checked_mul(texture)
}

/// The multiplicative profile as a rule for the optimizer.
pub struct Profile<'a> {
    pub ingredients: &'a [Ingredients],
    pub filter_calories: bool,
}

impl<'a> Scoring<Vec<u32>> for Profile<'a> {
    open spec fn fits(&self, candidate: &Vec<u32>) -> bool {
        profile_fits(self.ingredients@, spoons(candidate@), self.filter_calories)
    }

    open spec fn missing(&self, candidate: &Vec<u32>) -> Option<(usize, usize)> {
        None
    }

    open spec fn value(&self, candidate: &Vec<u32>) -> int {
        profile_score(self.ingredients@, spoons(candidate@), self.filter_calories)
    }

    fn score(&self, candidate: &Vec<u32>) -> (r: Result<i64, EngineError>) {
        Ok(get_score(self.ingredients, candidate, self.filter_calories))
    }
}

/// The mixtures of the hundred spoonfuls among `ingredients`.
pub open spec fn mixtures(ingredients: Seq<Ingredients>) -> Seq<Seq<nat>> {
    splits(ingredients.len(), SPOONFULS as nat)
}

/// Every mixture of the hundred spoonfuls can be scored within `i64`.
pub open spec fn all_mixtures_fit(ingredients: Seq<Ingredients>, filter_calories: bool) -> bool {
    forall|k: int|
        0 <= k < mixtures(ingredients).len() ==> profile_fits(
            ingredients,
            #[trigger] mixtures(ingredients)[k],
            filter_calories,
        )
}

/// Whether every mixture of the hundred spoonfuls can be scored within `i64`.
pub fn mixtures_fit(ingredients: &Vec<Ingredients>, filter_calories: bool) -> (r: bool)
    ensures
        r == all_mixtures_fit(ingredients@, filter_calories),
{
    let candidates = all_combinations(ingredients.as_slice(), SPOONFULS);
    let ghost all = mixtures(ingredients@);
    proof {
        assert(quantities(candidates@).len() == candidates.len());
        assert forall|k: int| 0 <= k < candidates.len() implies spoons((#[trigger] candidates[k])@)
            == all[k] by {
            assert(quantities(candidates@)[k] == spoons(candidates[k]@));
        }
    }
    let mut k: usize = 0;
    while k < candidates.len()
        invariant
            k <= candidates.len(),
            all == mixtures(ingredients@),
            candidates.len() == all.len(),
            forall|j: int| 0 <= j < candidates.len() ==> spoons((#[trigger] candidates[j])@) == all[j],
            forall|j: int|
                0 <= j < k ==> profile_fits(ingredients@, #[trigger] all[j], filter_calories),
        decreases candidates.len() - k,
    {
        if checked_score(ingredients.as_slice(), &candidates[k], filter_calories).is_none() {
            assert(!profile_fits(ingredients@, all[k as int], filter_calories));
            return false;
        }
        k += 1;
    }
    true
}

/// What the search for the best mixture returns: without an ingredient there
/// is no mixture; else the score of a mixture that no mixture scores more
/// than.
pub open spec fn best_mixture(
    ingredients: Seq<Ingredients>,
    filter_calories: bool,
    r: Result<i64, EngineError>,
) -> bool {
    match r {
        Ok(best) => {
            &&& ingredients.len() > 0
            &&& exists|k: int|
                0 <= k < mixtures(ingredients).len() && profile_score(
                    ingredients,
                    #[trigger] mixtures(ingredients)[k],
                    filter_calories,
                ) == best
            &&& forall|k: int|
                0 <= k < mixtures(ingredients).len() ==> profile_score(
                    ingredients,
                    #[trigger] mixtures(ingredients)[k],
                    filter_calories,
                ) <= best
        },
        Err(e) => e == EngineError::EmptyUniverse && ingredients.len() == 0,
    }
}

/// The search for the best mixture is a function of the ingredients and the
/// calorie gate: whatever meets its contract on them is one and the same
/// result, so a second run returns what the first did.
pub proof fn lemma_best_mixture_deterministic(
    ingredients: Seq<Ingredients>,
    filter_calories: bool,
    first: Result<i64, EngineError>,
    second: Result<i64, EngineError>,
)
    requires
        best_mixture(ingredients, filter_calories, first),
        best_mixture(ingredients, filter_calories, second),
    ensures
        first == second,
{
    if let (Ok(a), Ok(b)) = (first, second) {
        let all = mixtures(ingredients);
        let i = choose|k: int|
            0 <= k < all.len() && profile_score(ingredients, #[trigger] all[k], filter_calories)
                == a;
        let j = choose|k: int|
            0 <= k < all.len() && profile_score(ingredients, #[trigger] all[k], filter_calories)
                == b;
        assert(profile_score(ingredients, all[i], filter_calories) <= b);
        assert(profile_score(ingredients, all[j], filter_calories) <= a);
    }
}

/// The best score of any mixture of a hundred spoonfuls; without an
/// ingredient there is no mixture.
pub fn find_optimal(ingredients: &Vec<Ingredients>, filter_calories: bool) -> (r: Result<
    i64,
    EngineError,
>)
    requires
        all_mixtures_fit(ingredients@, filter_calories),
    ensures
        best_mixture(ingredients@, filter_calories, r),
{
    let candidates = all_combinations(ingredients.as_slice(), SPOONFULS);
    let scoring = Profile { ingredients: ingredients.as_slice(), filter_calories };
    let ghost all = mixtures(ingredients@);
    proof {
        assert forall|k: int| 0 <= k < candidates.len() implies spoons((#[trigger] candidates[k])@)
            == all[k] by {}
        if ingredients.len() > 0 {
            crate::allocation::lemma_splits_count(ingredients@.len(), SPOONFULS as nat);
            lemma_binomial_positive(
                (SPOONFULS + ingredients@.len() - 1) as nat,
                (ingredients@.len() - 1) as nat,
            );
        }
    }
    match optimize(&candidates, &scoring, Direction::Max) {
        Ok(w) => {
            proof {
                assert forall|k: int| 0 <= k < all.len() implies profile_score(
                    ingredients@,
                    #[trigger] all[k],
                    filter_calories,
                ) <= w.score by {
                    assert(!improves(Direction::Max, scoring.value(&candidates[k]), w.score as int));
                }
            }
            Ok(w.score)
        },
        Err(e) => {
            Err(e)
        },
    }
}

/// Every ingredient has at most `bound` of each of the four properties that
/// are multiplied, be it more or less than nothing, and at most `energy`
/// calories.
pub open spec fn properties_within(ingredients: Seq<Ingredients>, bound: int, energy: int) -> bool {
    forall|i: int, property: Property|
        0 <= i < ingredients.len() ==> {
            let a = #[trigger] ingredients[i].amount_of(property);
            if property == Property::Calories {
                -energy <= a <= energy
            } else {
                -bound <= a <= bound
            }
        }
}

proof fn lemma_aggregate_within(
    ingredients: Seq<Ingredients>,
    mixture: Seq<nat>,
    property: Property,
    bound: int,
    count: nat,
)
    requires
        0 <= bound,
        count <= ingredients.len(),
        count <= mixture.len(),
        forall|i: int|
            0 <= i < ingredients.len() ==> -bound <= (#[trigger] ingredients[i]).amount_of(property)
                <= bound,
    ensures
        -(total_quantity(mixture.take(count as int)) * bound) <= aggregate(
            ingredients,
            mixture,
            property,
            count,
        ) <= total_quantity(mixture.take(count as int)) * bound,
        count > 0 ==> mixture[count - 1] <= total_quantity(mixture.take(count as int)),
        total_quantity(mixture.take(count as int)) <= total_quantity(mixture),
    decreases mixture.len() - count,
{
    lemma_aggregate_bound(ingredients, mixture, property, bound, count);
    if count < mixture.len() {
        lemma_total_grows(mixture, (count + 1) as nat);
    } else {
        assert(mixture.take(count as int) =~= mixture);
    }
}

proof fn lemma_total_grows(mixture: Seq<nat>, count: nat)
    requires
        count <= mixture.len(),
    ensures
        total_quantity(mixture.take(count as int)) <= total_quantity(mixture),
        count > 0 ==> total_quantity(mixture.take(count - 1)) <= total_quantity(
            mixture.take(count as int),
        ),
    decreases mixture.len() - count,
{
    if count > 0 {
        assert(mixture.take(count as int).drop_last() =~= mixture.take(count - 1));
    }
    if count < mixture.len() {
        lemma_total_grows(mixture, (count + 1) as nat);
    }
}

proof fn lemma_aggregate_bound(
    ingredients: Seq<Ingredients>,
    mixture: Seq<nat>,
    property: Property,
    bound: int,
    count: nat,
)
    requires
        0 <= bound,
        count <= ingredients.len(),
        count <= mixture.len(),
        forall|i: int|
            0 <= i < ingredients.len() ==> -bound <= (#[trigger] ingredients[i]).amount_of(property)
                <= bound,
    ensures
        -(total_quantity(mixture.take(count as int)) * bound) <= aggregate(
            ingredients,
            mixture,
            property,
            count,
        ) <= total_quantity(mixture.take(count as int)) * bound,
        count > 0 ==> mixture[count - 1] <= total_quantity(mixture.take(count as int)),
    decreases count,
{
    if count > 0 {
        lemma_aggregate_bound(ingredients, mixture, property, bound, (count - 1) as nat);
        let now = mixture.take(count as int);
        assert(now.drop_last() =~= mixture.take(count - 1));
        let q = mixture[count - 1] as int;
        let a = ingredients[count - 1].amount_of(property);
        let sofar = total_quantity(mixture.take(count - 1)) as int;
        assert(-(q * bound) <= q * a <= q * bound) by (nonlinear_arith)
            requires
                0 <= q,
                -bound <= a <= bound,
        ;
        assert((sofar + q) * bound == sofar * bound + q * bound) by (nonlinear_arith);
    }
}

/// Where each ingredient has at most 500 of each of the four properties that
/// are multiplied and at most 2 to the 40 calories, every mixture of the
/// hundred spoonfuls can be scored within `i64`.
pub proof fn lemma_small_mixtures_fit(ingredients: Seq<Ingredients>, filter_calories: bool, k: int)
    requires
        properties_within(ingredients, 500, 0x100_0000_0000),
        0 <= k < mixtures(ingredients).len(),
    ensures
        profile_fits(ingredients, mixtures(ingredients)[k], filter_calories),
{
    let mixture = mixtures(ingredients)[k];
    crate::allocation::lemma_splits_rows(ingredients.len(), SPOONFULS as nat, k);
    lemma_total_fits(ingredients, mixture, Property::Capacity, 500);
    lemma_total_fits(ingredients, mixture, Property::Durability, 500);
    lemma_total_fits(ingredients, mixture, Property::Flavor, 500);
    lemma_total_fits(ingredients, mixture, Property::Texture, 500);
    lemma_total_fits(ingredients, mixture, Property::Calories, 0x100_0000_0000);
    let capacity = property_total(ingredients, mixture, Property::Capacity);
    let durability = property_total(ingredients, mixture, Property::Durability);
    let flavor = property_total(ingredients, mixture, Property::Flavor);
    let texture = property_total(ingredients, mixture, Property::Texture);
    if capacity >= 0 && durability >= 0 && flavor >= 0 && texture >= 0 {
        assert(capacity * durability <= 50000 * 50000) by (nonlinear_arith)
            requires
                0 <= capacity <= 50000,
                0 <= durability <= 50000,
        ;
        assert(0 <= capacity * durability) by (nonlinear_arith)
            requires
                0 <= capacity,
                0 <= durability,
        ;
        let two = capacity * durability;
        assert(0 <= two * flavor <= 2500000000 * 50000) by (nonlinear_arith)
            requires
                0 <= two <= 2500000000,
                0 <= flavor <= 50000,
        ;
        let three = two * flavor;
        assert(three * texture <= 125000000000000 * 50000) by (nonlinear_arith)
            requires
                0 <= three <= 125000000000000,
                0 <= texture <= 50000,
        ;
    }
}

proof fn lemma_total_fits(
    ingredients: Seq<Ingredients>,
    mixture: Seq<nat>,
    property: Property,
    bound: int,
)
    requires
        0 <= bound <= 0x100_0000_0000,
        mixture.len() == ingredients.len(),
        total_quantity(mixture) == SPOONFULS,
        forall|i: int|
            0 <= i < ingredients.len() ==> -bound <= (#[trigger] ingredients[i]).amount_of(property)
                <= bound,
    ensures
        total_fits(ingredients, mixture, property),
        -(100 * bound) <= property_total(ingredients, mixture, property) <= 100 * bound,
{
    assert forall|count: nat| count <= ingredients.len() implies {
        &&& i64::MIN <= #[trigger] aggregate(ingredients, mixture, property, count) <= i64::MAX
        &&& count < ingredients.len() ==> i64::MIN <= quantity(mixture, count as int)
            * ingredients[count as int].amount_of(property) <= i64::MAX
    } by {
        lemma_aggregate_within(ingredients, mixture, property, bound, count);
        let taken = total_quantity(mixture.take(count as int)) as int;
        assert(taken * bound <= 100 * bound) by (nonlinear_arith)
            requires
                0 <= taken <= 100,
                0 <= bound,
        ;
        if count < ingredients.len() {
            lemma_aggregate_within(ingredients, mixture, property, bound, (count + 1) as nat);
            let q = mixture[count as int] as int;
            let a = ingredients[count as int].amount_of(property);
            assert(-(100 * bound) <= q * a <= 100 * bound) by (nonlinear_arith)
                requires
                    0 <= q <= 100,
                    -bound <= a <= bound,
            ;
        }
    }
    lemma_aggregate_within(ingredients, mixture, property, bound, ingredients.len());
    let all = total_quantity(mixture.take(ingredients.len() as int)) as int;
    assert(all * bound <= 100 * bound) by (nonlinear_arith)
        requires
            0 <= all <= 100,
            0 <= bound,
    ;
}

/// There is at least one way to choose `r` out of `n >= r`.
proof fn lemma_binomial_positive(n: nat, r: nat)
    requires
        r <= n,
    ensures
        crate::allocation::binomial(n, r) >= 1,
    decreases n,
{
    if r > 0 && n > 0 {
        lemma_binomial_positive((n - 1) as nat, (r - 1) as nat);
    }
}

/// No mixture scores below 0: one that is not viable scores 0 and can win
/// only where no mixture scores more.
pub proof fn lemma_score_not_negative(
    ingredients: Seq<Ingredients>,
    mixture: Seq<nat>,
    filter_calories: bool,
)
    ensures
        profile_score(ingredients, mixture, filter_calories) >= 0,
{
    let capacity = property_total(ingredients, mixture, Property::Capacity);
    let durability = property_total(ingredients, mixture, Property::Durability);
    let flavor = property_total(ingredients, mixture, Property::Flavor);
    let texture = property_total(ingredients, mixture, Property::Texture);
    if capacity >= 0 && durability >= 0 && flavor >= 0 && texture >= 0 {
        assert(capacity * durability * flavor * texture >= 0) by (nonlinear_arith)
            requires
                capacity >= 0,
                durability >= 0,
                flavor >= 0,
                texture >= 0,
        ;
    }
}

/// A mixture that has less than nothing of capacity, durability, flavor or
/// texture scores exactly 0, however much it has of the others.
pub proof fn lemma_negative_property_scores_zero(
    ingredients: Seq<Ingredients>,
    mixture: Seq<nat>,
    filter_calories: bool,
    property: Property,
)
    requires
        property != Property::Calories,
        property_total(ingredients, mixture, property) < 0,
    ensures
        profile_score(ingredients, mixture, filter_calories) == 0,
{
}

/// The ingredient that the groups of a matched line spell out.
pub open spec fn ingredient_of_groups(groups: Seq<Option<Seq<char>>>) -> Option<
    (Seq<char>, int, int, int, int, int),
> {
    if groups.len() < 7 {
        None
    } else {
        match (
            group_text(groups, 1),
            group_number(groups, 2),
            group_number(groups, 3),
            group_number(groups, 4),
            group_number(groups, 5),
            group_number(groups, 6),
        ) {
            (Some(name), Some(a), Some(b), Some(c), Some(d), Some(e)) => Some(
                (name, a, b, c, d, e),
            ),
            _ => None,
        }
    }
}

/// The number that group `i` writes, where it is an `i64`.
pub open spec fn group_number(groups: Seq<Option<Seq<char>>>, i: int) -> Option<int> {
    match group_text(groups, i) {
        Some(t) => match signed_decimal(t) {
            Some(v) => if i64::MIN <= v <= i64::MAX {
                Some(v)
            } else {
                None
            },
            None => None,
        },
        None => None,
    }
}

fn number_of(groups: &Vec<Option<String>>, i: usize) -> (r: Option<i64>)
    ensures
        match group_number(groups_view(Some(*groups))->0, i as int) {
            Some(v) => r == Some(v as i64),
            None => r is None,
        },
{
    match group(groups, i) {
        Some(t) => parse_signed(t, i64::MIN, i64::MAX),
        None => None,
    }
}

/// The ingredient that a line spells out, going by what the pattern finds in
/// it.
pub open spec fn ingredient_of_line(line: Seq<char>) -> Option<
    (Seq<char>, int, int, int, int, int),
> {
    match regex_captures(
        r"(\w+): capacity ([\-0-9]+), durability ([\-0-9]+), flavor ([\-0-9]+), texture ([\-0-9]+), calories ([\-0-9]+)$"@,
        line,
    ) {
        Some(groups) => ingredient_of_groups(groups),
        None => None,
    }
}

impl Ingredients {
    /// Reads an ingredient from the groups of a matched line.
    pub fn from_captures(groups: &Vec<Option<String>>) -> (r: Option<Ingredients>)
        ensures
            match ingredient_of_groups(groups_view(Some(*groups))->0) {
                Some(v) => r matches Some(i) && i@ == v,
                None => r is None,
            },
    {
        if groups.len() < 7 {
            return None;
        }
        match (
            group(groups, 1),
            number_of(groups, 2),
            number_of(groups, 3),
            number_of(groups, 4),
            number_of(groups, 5),
            number_of(groups, 6),
        ) {
            (Some(name), Some(capacity), Some(durability), Some(flavor), Some(texture), Some(calories)) => Some(
                Ingredients {
                    name: String::from_str(name),
                    capacity,
                    durability,
                    flavor,
                    texture,
                    calories,
                },
            ),
            _ => None,
        }
    }

    /// Reads a line of the form
    /// `A: capacity 1, durability -2, flavor 3, texture 0, calories 5`.
    pub fn from_str(s: &str) -> (r: Result<Ingredients, ParseError>)
        ensures
            match ingredient_of_line(s@) {
                Some(v) => r matches Ok(i) && i@ == v,
                None => r matches Err(e) && e.message@ == "invalid input format"@,
            },
    {
        let found = match captures(
            r"(\w+): capacity ([\-0-9]+), durability ([\-0-9]+), flavor ([\-0-9]+), texture ([\-0-9]+), calories ([\-0-9]+)$",
            s,
        ) {
            Some(groups) => Ingredients::from_captures(&groups),
            None => None,
        };
        match found {
            Some(i) => Ok(i),
            None => {
                let e = parse_error("invalid input format", "", "");
                proof {
                    reveal_strlit("");
                }
                Err(e)
            },
        }
    }
}

} // verus!
