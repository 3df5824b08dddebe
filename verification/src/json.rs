//! Adding up the numbers in a JSON document: all that are written in it, or
//! those of its values, leaving out every object that has the value `"red"`.

use vstd::prelude::*;
use vstd::string::*;
use crate::text::chars_of;
use crate::text::is_digit;
use crate::text::parse_signed_chars;
use crate::text::same_text;
use crate::text::signed_decimal;

verus! {

/// A digit or a minus sign.
pub open spec fn is_number_char(c: char) -> bool {
    is_digit(c) || c == '-'
}

/// The length of the run of digits and minus signs that `s` ends with.
pub open spec fn number_run(s: Seq<char>) -> nat
    decreases s.len(),
{
    if s.len() > 0 && is_number_char(s.last()) {
        number_run(s.drop_last()) + 1
    } else {
        0
    }
}

/// What a run of digits and minus signs counts for: the number that it
/// writes where that is an `i32`, else 0.
pub open spec fn run_value(run: Seq<char>) -> int {
    match signed_decimal(run) {
        Some(v) => if i32::MIN <= v <= i32::MAX {
            v
        } else {
            0
        },
        None => 0,
    }
}

/// The runs of digits and minus signs in `s`, each taken as long as it goes
/// and for what it counts, added up.
pub open spec fn numbers_total(s: Seq<char>) -> int
    decreases s.len(),
{
    if s.len() == 0 {
        0
    } else if !is_number_char(s.last()) {
        numbers_total(s.drop_last())
    } else {
        proof {
            lemma_number_run_range(s);
        }
        numbers_total(s.take(s.len() - number_run(s))) + run_value(
            s.skip(s.len() - number_run(s)),
        )
    }
}

/// A run is no longer than the text.
pub proof fn lemma_number_run_range(s: Seq<char>)
    ensures
        number_run(s) <= s.len(),
    decreases s.len(),
{
    if s.len() > 0 {
        lemma_number_run_range(s.drop_last());
    }
}

proof fn lemma_numbers_total_range(s: Seq<char>)
    ensures
        -(s.len() * 0x8000_0000) <= numbers_total(s) <= s.len() * 0x8000_0000,
    decreases s.len(),
{
    if s.len() > 0 {
        if !is_number_char(s.last()) {
            lemma_numbers_total_range(s.drop_last());
        } else {
            lemma_number_run_range(s);
            let head = s.take(s.len() - number_run(s));
            lemma_numbers_total_range(head);
            assert(head.len() * 0x8000_0000 + 0x8000_0000 <= s.len() * 0x8000_0000)
                by (nonlinear_arith)
                requires
                    head.len() + 1 <= s.len(),
            ;
        }
    }
}

fn number_char(c: char) -> (r: bool)
    ensures
        r == is_number_char(c),
{
    ('0' <= c && c <= '9') || c == '-'
}

/// The sum of all the numbers written in `s`, in a type that holds it
/// whatever the text.
fn wide_total(s: &str) -> (total: i128)
    ensures
        total == numbers_total(s@),
{
    let chars = chars_of(s);
    let ghost text = chars@;
    let mut total: i128 = 0;
    let mut run: Vec<char> = Vec::new();
    let mut i: usize = 0;
    while i < chars.len()
        invariant
            text == chars@,
            i <= chars.len(),
            run.len() <= i,
            run.len() == number_run(text.take(i as int)),
            run@ == text.subrange(i - run.len(), i as int),
            total == numbers_total(text.take(i - run.len())),
        decreases chars.len() - i,
    {
        let c = chars[i];
        proof {
            assert(text.take(i + 1).drop_last() =~= text.take(i as int));
        }
        if number_char(c) {
            run.push(c);
        } else {
            proof {
                let t = text.take(i as int);
                lemma_numbers_total_range(t);
                lemma_numbers_total_range(text.take(i - run.len()));
                assert(i * 0x8000_0000 <= 0xffff_ffff_ffff_ffff * 0x8000_0000) by (nonlinear_arith)
                    requires
                        i <= 0xffff_ffff_ffff_ffff,
                ;
                if run.len() > 0 {
                    assert(t.take(t.len() - run.len()) =~= text.take(i - run.len()));
                    assert(t.skip(t.len() - run.len()) =~= run@);
                }
            }
            if run.len() > 0 {
                let v: i64 = match parse_signed_chars(&run, -0x8000_0000, 0x7fff_ffff) {
                    Some(v) => v,
                    None => 0,
                };
                total = total + v as i128;
                run = Vec::new();
            }
        }
        i += 1;
    }
    proof {
        let t = text.take(i as int);
        assert(t =~= text);
        lemma_numbers_total_range(text.take(i - run.len()));
        assert(i * 0x8000_0000 <= 0xffff_ffff_ffff_ffff * 0x8000_0000) by (nonlinear_arith)
            requires
                i <= 0xffff_ffff_ffff_ffff,
        ;
    }
    if run.len() > 0 {
        let v: i64 = match parse_signed_chars(&run, -0x8000_0000, 0x7fff_ffff) {
            Some(v) => v,
            None => 0,
        };
        total = total + v as i128;
    }
    total
}

/// Whether the sum of all the numbers written in `s` is an `i32`.
pub fn numbers_fit(s: &str) -> (r: bool)
    ensures
        r == (i32::MIN <= numbers_total(s@) <= i32::MAX),
{
    let total = wide_total(s);
    -0x8000_0000 <= total && total <= 0x7fff_ffff
}

/// The sum of all the numbers written in `s`, be it a JSON document or not.
pub fn sum_all_numbers(s: &str) -> (sum: i32)
    requires
        s.is_ascii(),
        i32::MIN <= numbers_total(s@) <= i32::MAX,
    ensures
        sum == numbers_total(s@),
{
    wide_total(s) as i32
}

/// `serde_json::Value`, taken as it is: nothing is known of what is inside
/// one but through [`tree_of`].
#[verifier::external_type_specification]
#[verifier::external_body]
pub struct ExValue(serde_json::Value);

/// `serde_json::Error`, taken as it is: nothing is known of what is inside.
#[verifier::external_type_specification]
#[verifier::external_body]
pub struct ExJsonError(serde_json::Error);

/// What a JSON value holds: for a number, its value where it is an `i64`;
/// for an object, the values of its members in the order in which the object
/// hands them out.
pub enum Tree {
    Null,
    Bool(bool),
    Number(Option<i64>),
    Text(Seq<char>),
    Array(Seq<Tree>),
    Object(Seq<Tree>),
}

/// What a `serde_json::Value` holds.
pub uninterp spec fn tree_of(v: serde_json::Value) -> Tree;

/// What `serde_json` reads from a text: the value that the text writes, or
/// nothing where it is no JSON document.
pub uninterp spec fn parsed(text: Seq<char>) -> Option<Tree>;

/// What each of a list of values holds.
pub open spec fn trees_of(items: Seq<serde_json::Value>) -> Seq<Tree> {
    items.map_values(|v: serde_json::Value| tree_of(v))
}

/// What each of a list of values holds.
pub open spec fn trees_at(items: Seq<&serde_json::Value>) -> Seq<Tree> {
    items.map_values(|v: &serde_json::Value| tree_of(*v))
}

/// `serde_json::from_str` for a `Value`. The contract only gives the outcome
/// its name, [`parsed`]: an error where the text is no JSON document, else a
/// value that holds what the text writes.
#[verifier::external_body]
pub(crate) fn parse(s: &str) -> (r: Result<serde_json::Value, serde_json::Error>)
    ensures
        match r {
            Ok(v) => parsed(s@) == Some(tree_of(v)),
            Err(_) => parsed(s@) is None,
        },
{
    serde_json::from_str(s)
}

/// `Value::as_array`: the elements of an array, and nothing for any other
/// value.
#[verifier::external_body]
pub(crate) fn as_array(v: &serde_json::Value) -> (r: Option<&Vec<serde_json::Value>>)
    ensures
        match tree_of(*v) {
            Tree::Array(items) => r matches Some(a) && trees_of(a@) == items,
            _ => r is None,
        },
{
    v.as_array()
}

/// `Value::as_object` and `Map::values`: the values of the members of an
/// object, in the order in which the object hands them out, and nothing for
/// any other value.
#[verifier::external_body]
pub(crate) fn object_values(v: &serde_json::Value) -> (r: Option<Vec<&serde_json::Value>>)
    ensures
        match tree_of(*v) {
            Tree::Object(items) => r matches Some(a) && trees_at(a@) == items,
            _ => r is None,
        },
{
    v.as_object().map(|o| o.values().collect())
}

/// `Value::is_number`: whether the value is a number.
#[verifier::external_body]
pub(crate) fn is_number(v: &serde_json::Value) -> (r: bool)
    ensures
        r == (tree_of(*v) is Number),
{
    v.is_number()
}

/// `Value::as_i64`: the number where the value is one that is an `i64`, and
/// nothing for any other value.
#[verifier::external_body]
pub(crate) fn as_i64(v: &serde_json::Value) -> (r: Option<i64>)
    ensures
        r == match tree_of(*v) {
            Tree::Number(n) => n,
            _ => None,
        },
{
    v.as_i64()
}

/// `Value::as_str`: the text of a string, and nothing for any other value.
#[verifier::external_body]
pub(crate) fn as_str(v: &serde_json::Value) -> (r: Option<&str>)
    ensures
        match tree_of(*v) {
            Tree::Text(t) => r matches Some(s) && s@ == t,
            _ => r is None,
        },
{
    v.as_str()
}

/// One of the values is the text `red`.
pub open spec fn any_red(items: Seq<Tree>) -> bool {
    exists|i: int| 0 <= i < items.len() && #[trigger] items[i] == Tree::Text("red"@)
}

/// The sums of the first `n` of a list of values, added up; nothing once a
/// value has no sum or a running total is no `i64`.
pub open spec fn list_sum(items: Seq<Tree>, n: nat) -> Option<int>
    decreases items, n,
{
    if n == 0 || n > items.len() {
        Some(0)
    } else {
        match (list_sum(items, (n - 1) as nat), tree_sum(items[n - 1])) {
            (Some(a), Some(b)) => if i64::MIN <= a + b <= i64::MAX {
                Some(a + b)
            } else {
                None
            },
            _ => None,
        }
    }
}

/// The sum of a value: a number counts for itself, an array for its elements,
/// an object for the values of its members unless one of them is the text
/// `red`, which makes it count for 0; anything else counts for 0. A number
/// that is no `i64` has no sum.
pub open spec fn tree_sum(t: Tree) -> Option<int>
    decreases t,
{
    match t {
        Tree::Array(items) => list_sum(items, items.len()),
        Tree::Object(items) => if any_red(items) {
            Some(0)
        } else {
            list_sum(items, items.len())
        },
        Tree::Number(Some(n)) => Some(n as int),
        Tree::Number(None) => None,
        _ => Some(0),
    }
}

/// Whether one of the values is the text `red`.
pub fn has_red(values: &Vec<&serde_json::Value>) -> (r: bool)
    ensures
        r == any_red(trees_at(values@)),
{
    let ghost items = trees_at(values@);
    let mut i: usize = 0;
    while i < values.len()
        invariant
            i <= values.len(),
            items == trees_at(values@),
            forall|j: int| 0 <= j < i ==> #[trigger] items[j] != Tree::Text("red"@),
        decreases values.len() - i,
    {
        assert(items[i as int] == tree_of(*values[i as int]));
        match as_str(values[i]) {
            Some(t) => {
                if same_text(t, "red") {
                    return true;
                }
            },
            None => {},
        }
        i += 1;
    }
    false
}

/// The sum of a value; nothing where a number is no `i64` or a running total
/// is none.
pub fn sum_number(v: &serde_json::Value) -> (r: Option<i64>)
    ensures
        match tree_sum(tree_of(*v)) {
            Some(n) => r == Some(n as i64),
            None => r is None,
        },
    decreases tree_of(*v),
{
    if let Some(arr) = as_array(v) {
        let ghost items = trees_of(arr@);
        let mut total: i64 = 0;
        let mut i: usize = 0;
        while i < arr.len()
            invariant
                i <= arr.len(),
                items == trees_of(arr@),
                tree_of(*v) == Tree::Array(items),
                list_sum(items, i as nat) == Some(total as int),
            decreases arr.len() - i,
        {
            assert(items[i as int] == tree_of(arr[i as int]));
            let part = match sum_number(&arr[i]) {
                Some(p) => p,
                None => {
                    proof {
                        lemma_list_sum_stays_none(items, (i + 1) as nat, items.len());
                    }
                    return None;
                },
            };
            total = match total.checked_add(part) {
                Some(t) => t,
                None => {
                    proof {
                        lemma_list_sum_stays_none(items, (i + 1) as nat, items.len());
                    }
                    return None;
                },
            };
            i += 1;
        }
        return Some(total);
    }
    if let Some(values) = object_values(v) {
        if has_red(&values) {
            return Some(0);
        }
        let ghost items = trees_at(values@);
        let mut total: i64 = 0;
        let mut i: usize = 0;
        while i < values.len()
            invariant
                i <= values.len(),
                items == trees_at(values@),
                tree_of(*v) == Tree::Object(items),
                !any_red(items),
                list_sum(items, i as nat) == Some(total as int),
            decreases values.len() - i,
        {
            assert(items[i as int] == tree_of(*values[i as int]));
            let part = match sum_number(values[i]) {
                Some(p) => p,
                None => {
                    proof {
                        lemma_list_sum_stays_none(items, (i + 1) as nat, items.len());
                    }
                    return None;
                },
            };
            total = match total.checked_add(part) {
                Some(t) => t,
                None => {
                    proof {
                        lemma_list_sum_stays_none(items, (i + 1) as nat, items.len());
                    }
                    return None;
                },
            };
            i += 1;
        }
        return Some(total);
    }
    if is_number(v) {
        return as_i64(v);
    }
    Some(0)
}

proof fn lemma_list_sum_stays_none(items: Seq<Tree>, n: nat, m: nat)
    requires
        n <= m <= items.len(),
        list_sum(items, n) is None,
    ensures
        list_sum(items, m) is None,
    decreases m,
{
    if n < m {
        lemma_list_sum_stays_none(items, n, (m - 1) as nat);
    }
}

/// Why a document has no sum.
#[derive(Clone, Copy, Debug, PartialEq, Eq, Structural)]
pub enum JsonError {
    /// The text is no JSON document.
    Syntax,
    /// A number is no `i64`, or a running total is none.
    NoSum,
}

/// The sum that a parsed document gives.
pub open spec fn red_free_sum(document: Option<Tree>) -> Result<i64, JsonError> {
    match document {
        None => Err(JsonError::Syntax),
        Some(t) => match tree_sum(t) {
            Some(n) => Ok(n as i64),
            None => Err(JsonError::NoSum),
        },
    }
}

/// The sum of the numbers of a JSON document, leaving out every object that
/// has the value `"red"`.
pub fn sum_without_red(s: &str) -> (r: Result<i64, JsonError>)
    ensures
        r == red_free_sum(parsed(s@)),
{
    match parse(s) {
        Ok(v) => match sum_number(&v) {
            Some(n) => Ok(n),
            None => Err(JsonError::NoSum),
        },
        Err(_) => Err(JsonError::Syntax),
    }
}

} // verus!
