//! Names as handles: a list of distinct names, each known by its position.

use vstd::prelude::*;
use vstd::string::*;
use crate::text::same_text;

verus! {

/// The texts of a vector of strings.
pub open spec fn texts(v: Seq<String>) -> Seq<Seq<char>> {
    v.map_values(|s: String| s@)
}

/// The list with `name` at its end, unless it holds the name already.
pub open spec fn enrolled(names: Seq<Seq<char>>, name: Seq<char>) -> Seq<Seq<char>> {
    if names.contains(name) {
        names
    } else {
        names.push(name)
    }
}

/// The position of `name` in a list that holds it.
pub open spec fn handle_of(names: Seq<Seq<char>>, name: Seq<char>) -> int {
    names.index_of(name)
}

/// The position of `name` in `names`, where it is there.
pub fn find(names: &Vec<String>, name: &str) -> (r: Option<usize>)
    requires
        texts(names@).no_duplicates(),
    ensures
        match r {
            Some(i) => i < names.len() && names[i as int]@ == name@ && texts(names@).contains(name@)
                && i == handle_of(texts(names@), name@),
            None => !texts(names@).contains(name@),
        },
{
    let mut i: usize = 0;
    while i < names.len()
        invariant
            i <= names.len(),
            texts(names@).no_duplicates(),
            forall|j: int| 0 <= j < i ==> names[j]@ != name@,
        decreases names.len() - i,
    {
        if same_text(names[i].as_str(), name) {
            proof {
                let t = texts(names@);
                assert(t[i as int] == name@);
                let k = t.index_of(name@);
            }
            return Some(i);
        }
        i += 1;
    }
    proof {
        let t = texts(names@);
    }
    None
}

/// The handle of `name`, which joins the list at its end if it is new.
pub fn enroll(names: &mut Vec<String>, name: &str) -> (i: usize)
    requires
        texts(old(names)@).no_duplicates(),
    ensures
        texts(final(names)@).no_duplicates(),
        texts(final(names)@) == enrolled(texts(old(names)@), name@),
        i < final(names).len(),
        i == handle_of(texts(final(names)@), name@),
        texts(final(names)@)[i as int] == name@,
{
    match find(names, name) {
        Some(i) => i,
        None => {
            let ghost before = texts(names@);
            let i = names.len();
            names.push(String::from_str(name));
            proof {
                let t = texts(names@);
                assert(t =~= before.push(name@));
                assert(t[i as int] == name@);
                // the new name stands nowhere in the list as it was
                assert(t.index_of(name@) == i) by {
                    let k = t.index_of(name@);
                    if k != i {
                        assert(before[k] == name@);
                    }
                }
            }
            i
        },
    }
}

/// A name keeps its handle when the list grows.
pub proof fn lemma_handle_stays(names: Seq<Seq<char>>, name: Seq<char>, other: Seq<char>)
    requires
        names.contains(name),
        names.no_duplicates(),
    ensures
        enrolled(names, other).contains(name),
        handle_of(enrolled(names, other), name) == handle_of(names, name),
        enrolled(names, other).no_duplicates(),
        names.len() <= enrolled(names, other).len(),
{
    let grown = enrolled(names, other);
    let k = names.index_of(name);
    assert(grown[k] == name);
    if !names.contains(other) {
        // the new name is no other member's like, and the members were distinct
        assert forall|a: int, b: int| 0 <= a < grown.len() && 0 <= b < grown.len() && a != b
            implies grown[a] != grown[b] by {
            if a == names.len() {
                assert(grown[b] == names[b]);
            } else if b == names.len() {
                assert(grown[a] == names[a]);
            }
        }
    }
}

} // verus!
