//! Lists of names, searched by spelling.
use vstd::prelude::*;

use crate::text::same_text;

verus! {

/// The spellings of a list of names.
pub open spec fn spellings(names: Seq<String>) -> Seq<Seq<char>> {
    Seq::new(names.len(), |i: int| names[i]@)
}

/// The first position at which `name` stands, if it stands anywhere.
pub open spec fn position_of(names: Seq<Seq<char>>, name: Seq<char>) -> Option<int>
    decreases names.len(),
{
    if names.len() == 0 {
        None
    } else {
        match position_of(names.drop_last(), name) {
            Some(i) => Some(i),
            None => if names.last() == name {
                Some(names.len() - 1)
            } else {
                None
            },
        }
    }
}

/// Where a name is found, it stands, and nowhere before; where it is not found
/// it does not stand.
pub proof fn lemma_position(names: Seq<Seq<char>>, name: Seq<char>)
    ensures
        match position_of(names, name) {
            Some(i) => 0 <= i < names.len() && names[i] == name && forall|j: int| 0 <= j < i ==> #[trigger] names[j] != name,
            None => forall|j: int| 0 <= j < names.len() ==> #[trigger] names[j] != name,
        },
    decreases names.len(),
{
    if names.len() > 0 {
        let front = names.drop_last();
        lemma_position(front, name);
        assert forall|j: int| 0 <= j < front.len() implies #[trigger] names[j] == front[j] by {}
    }
}

/// What stands first is found.
pub proof fn lemma_found(names: Seq<Seq<char>>, name: Seq<char>, i: int)
    requires
        0 <= i < names.len(),
        names[i] == name,
        forall|j: int| 0 <= j < i ==> #[trigger] names[j] != name,
    ensures
        position_of(names, name) == Some(i),
{
    lemma_position(names, name);
    match position_of(names, name) {
        Some(k) => {
            if k < i {
                assert(names[k] != name);
            }
            if i < k {
                assert(names[i] != name);
            }
        },
        None => {
            assert(names[i] != name);
        },
    }
}

/// What stands nowhere is not found.
pub proof fn lemma_missing(names: Seq<Seq<char>>, name: Seq<char>)
    requires
        forall|j: int| 0 <= j < names.len() ==> #[trigger] names[j] != name,
    ensures
        position_of(names, name) is None,
{
    lemma_position(names, name);
}

/// Finds a name in a list.
pub fn find_name(names: &Vec<String>, name: &str) -> (res: Option<usize>)
    ensures
        match res {
            Some(i) => position_of(spellings(names@), name@) == Some(i as int) && i < names@.len(),
            None => position_of(spellings(names@), name@) is None,
        },
{
    let mut i: usize = 0;
    while i < names.len()
        invariant
            i <= names@.len(),
            forall|j: int| 0 <= j < i ==> #[trigger] spellings(names@)[j] != name@,
        decreases names@.len() - i,
    {
        if same_text(names[i].as_str(), name) {
            proof {
                lemma_found(spellings(names@), name@, i as int);
            }
            return Some(i);
        }
        i = i + 1;
    }
    proof {
        lemma_missing(spellings(names@), name@);
    }
    None
}

/// A copy of a list of names.
pub fn copy_names(names: &Vec<String>) -> (res: Vec<String>)
    ensures
        spellings(res@) == spellings(names@),
{
    let mut res: Vec<String> = Vec::new();
    let mut i: usize = 0;
    while i < names.len()
        invariant
            i <= names@.len(),
            spellings(res@) == spellings(names@).take(i as int),
        decreases names@.len() - i,
    {
        let copy = names[i].clone();
        let ghost before = res@;
        res.push(copy);
        proof {
            assert(spellings(res@) =~= spellings(before).push(copy@));
            assert(spellings(names@).take(i + 1) =~= spellings(names@).take(i as int).push(names@[i as int]@));
        }
        i = i + 1;
    }
    assert(spellings(names@).take(i as int) =~= spellings(names@));
    res
}

} // verus!
