//! How the classes of a chain of bindings hang together, and what adding a binding or
//! a unifier settles for the bindings after it.
use vstd::prelude::*;

use crate::bindings::{
    atoms_unify, bound, bound_all, equated, fronted, kept_from_term, kept_from_var, lemma_found_class, lemma_found_object, match_ground,
    match_lifted, meet_in, object_class, resolved, seen_object, term_class, unifier, var_class, Binding, Class,
};
use crate::bindings_laws::{equality_settles, lemma_cons_has, lemma_pair_has, lemma_stacked, lemma_stacked_new};
use crate::formula::AtomView;
use crate::terms::{Object, Term, Variable};
use crate::typing::Typing;

verus! {

/// Whether class `i` is the newest one of each of its members.
pub open spec fn is_current(sets: Seq<Class>, i: int) -> bool {
    forall|y: (Variable, usize)| #[trigger] sets[i].members.contains(y) ==> var_class(sets, y) == Some(i)
}

/// Whether a variable's class, and an object's, is the newest of all its members, and a
/// variable that is pinned to an object has that object's class.
pub open spec fn coherent(sets: Seq<Class>) -> bool {
    &&& forall|x: (Variable, usize)| (#[trigger] var_class(sets, x)) is Some ==> is_current(sets, var_class(sets, x)->0)
    &&& forall|o: Object| (#[trigger] object_class(sets, o)) is Some ==> is_current(sets, object_class(sets, o)->0)
    &&& forall|x: (Variable, usize)|
        (#[trigger] var_class(sets, x)) is Some ==> match sets[var_class(sets, x)->0].constant {
            None => true,
            Some(o) => object_class(sets, o) == var_class(sets, x),
        }
}

/// Whether a class holds the whole class of each member and of its object.
pub open spec fn absorbs(c: Class, sets: Seq<Class>) -> bool {
    &&& forall|y: (Variable, usize)| #[trigger] c.members.contains(y) ==> takes_in(c, sets, var_class(sets, y))
    &&& forall|o: Object| c.constant == Some(o) ==> takes_in(c, sets, #[trigger] object_class(sets, o))
}

/// Whether a class holds all of class `i`, where there is one, and has no new member that
/// class `i` is kept from.
pub open spec fn takes_in(c: Class, sets: Seq<Class>, i: Option<int>) -> bool {
    match i {
        None => true,
        Some(k) => {
            &&& forall|y: (Variable, usize)| #[trigger] sets[k].members.contains(y) ==> c.members.contains(y)
            &&& sets[k].constant is Some ==> c.constant == sets[k].constant
            &&& forall|x: (Variable, usize)|
                #[trigger] sets[k].others.contains(x) ==> c.others.contains(x) && (c.members.contains(x) ==> sets[k].members.contains(x))
        },
    }
}

/// Whether two terms are one object, or of one class.
pub open spec fn joined(sets: Seq<Class>, t1: Term, id1: usize, t2: Term, id2: usize) -> bool {
    ||| t1 is Object && t1 == t2
    ||| term_class(sets, t1, id1) is Some && term_class(sets, t1, id1) == term_class(sets, t2, id2)
}

/// Whether a term has a class that is kept from a variable and does not hold it.
pub open spec fn parted(sets: Seq<Class>, var: (Variable, usize), term: Term, id: usize) -> bool {
    match term_class(sets, term, id) {
        None => false,
        Some(j) => sets[j].others.contains(var) && var_class(sets, var) != Some(j),
    }
}

pub proof fn lemma_front(c: Class, sets: Seq<Class>)
    ensures
        forall|x: (Variable, usize)|
            #[trigger] var_class(seq![c] + sets, x) == if c.members.contains(x) {
                Some(0int)
            } else {
                shifted(var_class(sets, x))
            },
        forall|o: Object|
            #[trigger] object_class(seq![c] + sets, o) == if c.constant == Some(o) {
                Some(0int)
            } else {
                shifted(object_class(sets, o))
            },
{
    let all = seq![c] + sets;
    assert(all.drop_first() =~= sets);
    assert(all[0] == c);
}

pub open spec fn shifted(i: Option<int>) -> Option<int> {
    match i {
        None => None,
        Some(k) => Some(k + 1),
    }
}

/// A class that takes in what it touches keeps the classes coherent, and terms of one
/// class stay of one class.
pub proof fn lemma_absorbed(c: Class, sets: Seq<Class>)
    requires
        coherent(sets),
        absorbs(c, sets),
    ensures
        coherent(seq![c] + sets),
        forall|t1: Term, id1: usize, t2: Term, id2: usize|
            #[trigger] joined(sets, t1, id1, t2, id2) ==> joined(seq![c] + sets, t1, id1, t2, id2),
        forall|x: (Variable, usize), term: Term, id: usize| #[trigger] parted(sets, x, term, id) ==> parted(seq![c] + sets, x, term, id),
{
    let all = seq![c] + sets;
    lemma_front(c, sets);
    assert forall|i: int| 0 <= i < sets.len() implies #[trigger] all[i + 1] == sets[i] by {}
    assert forall|x: (Variable, usize)| (#[trigger] var_class(all, x)) is Some implies is_current(all, var_class(all, x)->0) by {
        lemma_found_class(sets, x);
        if !c.members.contains(x) {
            let i = var_class(sets, x)->0;
            assert(is_current(sets, i));
            assert forall|y: (Variable, usize)| #[trigger] all[i + 1].members.contains(y) implies var_class(all, y) == Some(i + 1) by {
                assert(sets[i].members.contains(y));
                assert(var_class(sets, y) == Some(i));
                if c.members.contains(y) {
                    assert(takes_in(c, sets, var_class(sets, y)));
                    assert(c.members.contains(x));
                }
            }
        }
    }
    assert forall|o: Object| (#[trigger] object_class(all, o)) is Some implies is_current(all, object_class(all, o)->0) by {
        lemma_found_object(sets, o);
        if c.constant != Some(o) {
            let i = object_class(sets, o)->0;
            assert(is_current(sets, i));
            assert forall|y: (Variable, usize)| #[trigger] all[i + 1].members.contains(y) implies var_class(all, y) == Some(i + 1) by {
                assert(sets[i].members.contains(y));
                assert(var_class(sets, y) == Some(i));
                if c.members.contains(y) {
                    assert(takes_in(c, sets, var_class(sets, y)));
                }
            }
        }
    }
    assert forall|x: (Variable, usize)| (#[trigger] var_class(all, x)) is Some implies match all[var_class(all, x)->0].constant {
        None => true,
        Some(o) => object_class(all, o) == var_class(all, x),
    } by {
        lemma_found_class(sets, x);
        if !c.members.contains(x) {
            let i = var_class(sets, x)->0;
            if sets[i].constant is Some {
                let o = sets[i].constant->0;
                assert(object_class(sets, o) == Some(i));
                if c.constant == Some(o) {
                    assert(takes_in(c, sets, object_class(sets, o)));
                }
            }
        }
    }
    assert forall|t1: Term, id1: usize, t2: Term, id2: usize| #[trigger] joined(sets, t1, id1, t2, id2) implies joined(
        all,
        t1,
        id1,
        t2,
        id2,
    ) by {
        lemma_term_found(sets, t1, id1);
        lemma_term_found(sets, t2, id2);
    }
    assert forall|x: (Variable, usize), term: Term, id: usize| #[trigger] parted(sets, x, term, id) implies parted(all, x, term, id) by {
        lemma_term_found(sets, term, id);
        lemma_term_current(sets, term, id);
        lemma_found_class(sets, x);
        let j = term_class(sets, term, id)->0;
        assert(sets[j].others.contains(x));
        assert(!sets[j].members.contains(x));
        if term_class(all, term, id) == Some(0int) {
            assert(takes_in(c, sets, Some(j)));
        }
    }
}

/// The class of a variable holds it, and that of an object is pinned to it.
pub proof fn lemma_term_found(sets: Seq<Class>, term: Term, id: usize)
    ensures
        term_class(sets, term, id) matches Some(i) ==> 0 <= i < sets.len() && match term {
            Term::Object(o) => sets[i].constant == Some(o),
            Term::Variable(v) => sets[i].members.contains((v, id)),
        },
{
    match term {
        Term::Object(o) => lemma_found_object(sets, o),
        Term::Variable(v) => lemma_found_class(sets, (v, id)),
    }
}

/// The members of a term's class have that class, and so has its object.
pub proof fn lemma_term_current(sets: Seq<Class>, term: Term, id: usize)
    requires
        coherent(sets),
        term_class(sets, term, id) is Some,
    ensures
        ({
            let i = term_class(sets, term, id)->0;
            &&& 0 <= i < sets.len()
            &&& is_current(sets, i)
            &&& sets[i].constant is Some ==> object_class(sets, sets[i].constant->0) == Some(i)
        }),
{
    lemma_term_found(sets, term, id);
    match term {
        Term::Object(o) => {},
        Term::Variable(v) => {
            assert(var_class(sets, (v, id)) is Some);
        },
    }
}

pub proof fn lemma_meet_at(a: Seq<(Variable, usize)>, b: Seq<(Variable, usize)>, x: (Variable, usize))
    requires
        a.contains(x),
        b.contains(x),
    ensures
        meet_in(a, b),
{
    let k = choose|k: int| 0 <= k < a.len() && a[k] == x;
    assert(b.contains(a[k]));
}

/// The union of two classes takes in both.
proof fn lemma_merged_takes_in(t: Typing, sets: Seq<Class>, k: int, l: int, c: Class)
    requires
        sets[k].merged(t, sets[l]) == Some(c),
    ensures
        takes_in(c, sets, Some(k)),
        takes_in(c, sets, Some(l)),
        forall|y: (Variable, usize)| #[trigger] c.members.contains(y) ==> sets[k].members.contains(y) || sets[l].members.contains(y),
{
    let a = sets[k];
    let b = sets[l];
    assert forall|y: (Variable, usize)| #[trigger] c.members.contains(y) <==> a.members.contains(y) || b.members.contains(y) by {
        lemma_stacked(b.members, a.members, y);
    }
    assert forall|x: (Variable, usize)| a.others.contains(x) || b.others.contains(x) implies #[trigger] c.others.contains(x) by {
        lemma_stacked_new(b.others, a.others, a.others, x);
    }
    assert forall|x: (Variable, usize)| #[trigger] a.others.contains(x) implies c.others.contains(x) && (c.members.contains(x)
        ==> a.members.contains(x)) by {
        if b.members.contains(x) {
            lemma_meet_at(b.members, a.others, x);
        }
    }
    assert forall|x: (Variable, usize)| #[trigger] b.others.contains(x) implies c.others.contains(x) && (c.members.contains(x)
        ==> b.members.contains(x)) by {
        if a.members.contains(x) {
            lemma_meet_at(b.others, a.members, x);
        }
    }
}

/// A class with a variable added takes in the class.
proof fn lemma_extended_takes_in(t: Typing, sets: Seq<Class>, k: int, v: Variable, id: usize, c: Class)
    requires
        sets[k].with_var(t, v, id) == Some(c),
    ensures
        takes_in(c, sets, Some(k)),
        forall|y: (Variable, usize)| #[trigger] c.members.contains(y) ==> y == (v, id) || sets[k].members.contains(y),
{
    assert forall|y: (Variable, usize)| #[trigger] c.members.contains(y) <==> y == (v, id) || sets[k].members.contains(y) by {
        lemma_cons_has((v, id), sets[k].members, y);
    }
}

/// A class kept from one more variable takes in the class.
proof fn lemma_without_takes_in(sets: Seq<Class>, k: int, v: Variable, id: usize)
    ensures
        takes_in(sets[k].without(v, id), sets, Some(k)),
{
    assert forall|x: (Variable, usize)| #[trigger] sets[k].others.contains(x) implies sets[k].without(v, id).others.contains(x) by {
        lemma_cons_has((v, id), sets[k].others, x);
    }
}

pub proof fn lemma_equated_absorbs(t: Typing, sets: Seq<Class>, b: Binding, c: Class)
    requires
        b.equality,
        equated(t, sets, b) == Some(c),
        coherent(sets),
    ensures
        absorbs(c, sets),
{
    let var = (b.var, b.var_id);
    let vt = Term::Variable(b.var);
    let i = term_class(sets, vt, b.var_id);
    let j = term_class(sets, b.term, b.term_id);
    if i is Some {
        lemma_term_current(sets, vt, b.var_id);
    }
    if j is Some {
        lemma_term_current(sets, b.term, b.term_id);
    }
    match (i, j) {
        (None, None) => {},
        (Some(k), Some(l)) => {
            if k != l {
                lemma_merged_takes_in(t, sets, k, l, c);
            }
        },
        (None, Some(l)) => {
            lemma_extended_takes_in(t, sets, l, b.var, b.var_id, c);
        },
        (Some(k), None) => {
            match b.term {
                Term::Object(_) => {},
                Term::Variable(v) => lemma_extended_takes_in(t, sets, k, v, b.term_id, c),
            }
        },
    }
    assert forall|y: (Variable, usize)| #[trigger] c.members.contains(y) implies takes_in(c, sets, var_class(sets, y)) by {
        match b.term {
            Term::Object(_) => lemma_pair_has(var, var, y),
            Term::Variable(v) => lemma_pair_has((v, b.term_id), var, y),
        }
    }
}

/// What an inequality puts in front for its variable takes in the variable's class, and
/// what it puts in front of that for its term takes in the term's.
pub proof fn lemma_kept_absorbs(t: Typing, sets: Seq<Class>, b: Binding)
    requires
        !b.equality,
        bound(t, sets, b) is Some,
        coherent(sets),
    ensures
        kept_from_term(t, sets, b) matches Some(c) ==> absorbs(c, sets),
        kept_from_var(t, sets, b) matches Some(c) ==> absorbs(c, fronted(kept_from_term(t, sets, b), sets)),
{
    let var = (b.var, b.var_id);
    let vt = Term::Variable(b.var);
    let i = term_class(sets, vt, b.var_id);
    let j = term_class(sets, b.term, b.term_id);
    if i is Some {
        lemma_term_current(sets, vt, b.var_id);
    }
    if j is Some {
        lemma_term_current(sets, b.term, b.term_id);
    }
    lemma_term_found(sets, b.term, b.term_id);
    let first = kept_from_term(t, sets, b);
    if first is Some {
        let c = first->0;
        if i is Some {
            lemma_without_takes_in(sets, i->0, b.term->Variable_0, b.term_id);
        }
        assert forall|y: (Variable, usize)| #[trigger] c.members.contains(y) implies takes_in(c, sets, var_class(sets, y)) by {
            lemma_pair_has(var, var, y);
        }
        lemma_front(c, sets);
    }
    let mid = fronted(first, sets);
    let second = kept_from_var(t, sets, b);
    if second is Some {
        let c = second->0;
        assert forall|k: int| 0 <= k < sets.len() && first is Some implies #[trigger] mid[k + 1] == sets[k] by {}
        if j is Some {
            lemma_without_takes_in(sets, j->0, b.var, b.var_id);
            lemma_without_takes_in(mid, j->0 + 1, b.var, b.var_id);
        }
        assert forall|y: (Variable, usize)| #[trigger] c.members.contains(y) implies takes_in(c, mid, var_class(mid, y)) by {
            match b.term {
                Term::Object(_) => {},
                Term::Variable(v) => lemma_pair_has((v, b.term_id), (v, b.term_id), y),
            }
            lemma_pair_has(var, var, y);
            if first is Some && first->0.members.contains(y) {
                assert(mid[0] == first->0);
                if j is Some {
                    assert(var_class(sets, y) == j);
                }
                if i is Some {
                    assert(var_class(sets, y) == i);
                }
                assert forall|z: (Variable, usize)| #[trigger] mid[0].members.contains(z) implies c.members.contains(z) by {
                    lemma_pair_has(var, var, z);
                }
                assert(i is None && j is None);
                assert(c.others =~= mid[0].others);
            }
        }
        assert forall|o: Object| c.constant == Some(o) implies takes_in(c, mid, #[trigger] object_class(mid, o)) by {
            if first is Some {
                assert(mid[0] == first->0);
            }
        }
    }
}

/// Adding a binding keeps classes coherent, and terms of one class stay of one class.
pub proof fn binding_keeps_coherent(t: Typing, sets: Seq<Class>, b: Binding, after: Seq<Class>)
    requires
        coherent(sets),
        bound(t, sets, b) == Some(after),
    ensures
        coherent(after),
        forall|t1: Term, id1: usize, t2: Term, id2: usize|
            #[trigger] joined(sets, t1, id1, t2, id2) ==> joined(after, t1, id1, t2, id2),
        forall|x: (Variable, usize), term: Term, id: usize| #[trigger] parted(sets, x, term, id) ==> parted(after, x, term, id),
        b.equality ==> joined(after, Term::Variable(b.var), b.var_id, b.term, b.term_id),
{
    if b.equality {
        let c = equated(t, sets, b)->0;
        lemma_equated_absorbs(t, sets, b, c);
        lemma_absorbed(c, sets);
        equality_settles(t, sets, b, after);
        assert(bound(t, after, Binding { equality: false, ..b }) is None);
    } else {
        lemma_kept_absorbs(t, sets, b);
        let first = kept_from_term(t, sets, b);
        if first is Some {
            lemma_absorbed(first->0, sets);
        }
        let mid = fronted(first, sets);
        let second = kept_from_var(t, sets, b);
        if second is Some {
            lemma_absorbed(second->0, mid);
        }
        assert forall|t1: Term, id1: usize, t2: Term, id2: usize| #[trigger] joined(sets, t1, id1, t2, id2) implies joined(
            after,
            t1,
            id1,
            t2,
            id2,
        ) by {
            assert(joined(mid, t1, id1, t2, id2));
        }
        assert forall|x: (Variable, usize), term: Term, id: usize| #[trigger] parted(sets, x, term, id) implies parted(after, x, term, id) by {
            assert(parted(mid, x, term, id));
        }
    }
}

/// A chain without classes is coherent.
pub proof fn no_classes_are_coherent()
    ensures
        coherent(Seq::empty()),
{
}

/// Adding bindings keeps classes coherent, terms of one class stay of one class, and the
/// two terms of every equality that was added are of one class.
pub proof fn bindings_keep_coherent(t: Typing, sets: Seq<Class>, bs: Seq<Binding>, after: Seq<Class>)
    requires
        coherent(sets),
        bound_all(t, sets, bs) == Some(after),
    ensures
        coherent(after),
        forall|t1: Term, id1: usize, t2: Term, id2: usize|
            #[trigger] joined(sets, t1, id1, t2, id2) ==> joined(after, t1, id1, t2, id2),
        forall|x: (Variable, usize), term: Term, id: usize| #[trigger] parted(sets, x, term, id) ==> parted(after, x, term, id),
        forall|i: int|
            0 <= i < bs.len() && (#[trigger] bs[i]).equality ==> joined(after, Term::Variable(bs[i].var), bs[i].var_id, bs[i].term, bs[i].term_id),
    decreases bs.len(),
{
    if bs.len() > 0 {
        let mid = bound_all(t, sets, bs.drop_last())->0;
        bindings_keep_coherent(t, sets, bs.drop_last(), mid);
        binding_keeps_coherent(t, mid, bs.last(), after);
        assert forall|t1: Term, id1: usize, t2: Term, id2: usize| #[trigger] joined(sets, t1, id1, t2, id2) implies joined(
            after,
            t1,
            id1,
            t2,
            id2,
        ) by {
            assert(joined(mid, t1, id1, t2, id2));
        }
        assert forall|x: (Variable, usize), term: Term, id: usize| #[trigger] parted(sets, x, term, id) implies parted(after, x, term, id) by {
            assert(parted(mid, x, term, id));
        }
        assert forall|i: int| 0 <= i < bs.len() && (#[trigger] bs[i]).equality implies joined(
            after,
            Term::Variable(bs[i].var),
            bs[i].var_id,
            bs[i].term,
            bs[i].term_id,
        ) by {
            if i < bs.len() - 1 {
                assert(bs.drop_last()[i] == bs[i]);
                assert(joined(mid, Term::Variable(bs[i].var), bs[i].var_id, bs[i].term, bs[i].term_id));
            }
        }
    }
}

/// Two terms of one class cannot be kept apart.
pub proof fn joined_terms_stay_together(t: Typing, sets: Seq<Class>, v: Variable, id: usize, term: Term, term_id: usize)
    requires
        joined(sets, Term::Variable(v), id, term, term_id),
    ensures
        bound(t, sets, Binding { var: v, var_id: id, term, term_id, equality: false }) is None,
{
}

/// A variable that is bound to an object is refused any other object.
pub proof fn bound_variable_refuses_other_objects(t: Typing, sets: Seq<Class>, b: Binding)
    requires
        b.equality,
        b.term is Object,
        resolved(sets, Term::Variable(b.var), b.var_id) is Object,
        resolved(sets, Term::Variable(b.var), b.var_id) != b.term,
    ensures
        bound(t, sets, b) is None,
{
    lemma_found_class(sets, (b.var, b.var_id));
    lemma_found_object(sets, b.term->Object_0);
}

/// What a variable is bound to does not change when bindings are added.
pub proof fn bound_variables_stay_bound(t: Typing, sets: Seq<Class>, bs: Seq<Binding>, after: Seq<Class>, v: Variable, id: usize)
    requires
        coherent(sets),
        resolved(sets, Term::Variable(v), id) is Object,
        bound_all(t, sets, bs) == Some(after),
    ensures
        resolved(after, Term::Variable(v), id) == resolved(sets, Term::Variable(v), id),
{
    let o = resolved(sets, Term::Variable(v), id);
    bindings_keep_coherent(t, sets, bs, after);
    lemma_found_class(sets, (v, id));
    assert(joined(sets, Term::Variable(v), id, o, 0));
    lemma_term_found(after, o, 0);
}

/// Once a variable is equated with an object, an equality with any other object is
/// refused, whatever has been added since.
pub proof fn equality_refuses_other_objects(
    t: Typing,
    sets: Seq<Class>,
    b: Binding,
    mid: Seq<Class>,
    bs: Seq<Binding>,
    after: Seq<Class>,
    other: Object,
)
    requires
        coherent(sets),
        b.equality,
        b.term is Object,
        b.term != Term::Object(other),
        bound(t, sets, b) == Some(mid),
        bound_all(t, mid, bs) == Some(after),
    ensures
        bound(t, after, Binding { term: Term::Object(other), ..b }) is None,
{
    binding_keeps_coherent(t, sets, b, mid);
    equality_settles(t, sets, b, mid);
    bound_variables_stay_bound(t, mid, bs, after, b.var, b.var_id);
    bound_variable_refuses_other_objects(t, after, Binding { term: Term::Object(other), ..b });
}

/// A variable is refused a term whose class is kept from it.
pub proof fn parted_terms_stay_apart(t: Typing, sets: Seq<Class>, b: Binding)
    requires
        b.equality,
        parted(sets, (b.var, b.var_id), b.term, b.term_id),
    ensures
        bound(t, sets, b) is None,
{
    let var = (b.var, b.var_id);
    lemma_term_found(sets, b.term, b.term_id);
    lemma_found_class(sets, var);
    let j = term_class(sets, b.term, b.term_id)->0;
    if var_class(sets, var) is Some {
        lemma_meet_at(sets[j].others, sets[var_class(sets, var)->0].members, var);
    }
}

/// An inequality parts its two sides, where they are not one variable.
proof fn lemma_inequality_parts(t: Typing, sets: Seq<Class>, b: Binding, after: Seq<Class>)
    requires
        coherent(sets),
        !b.equality,
        b.term != Term::Variable(b.var) || b.term_id != b.var_id,
        bound(t, sets, b) == Some(after),
    ensures
        parted(after, (b.var, b.var_id), b.term, b.term_id),
{
    let var = (b.var, b.var_id);
    let i = var_class(sets, var);
    let j = term_class(sets, b.term, b.term_id);
    if i is Some {
        lemma_term_current(sets, Term::Variable(b.var), b.var_id);
    }
    if j is Some {
        lemma_term_current(sets, b.term, b.term_id);
    }
    lemma_found_class(sets, var);
    lemma_term_found(sets, b.term, b.term_id);
    let first = kept_from_term(t, sets, b);
    let mid = fronted(first, sets);
    let second = kept_from_var(t, sets, b);
    if first is Some {
        lemma_front(first->0, sets);
        assert forall|k: int| 0 <= k < sets.len() implies #[trigger] mid[k + 1] == sets[k] by {}
        match b.term {
            Term::Object(_) => {},
            Term::Variable(v) => lemma_pair_has(var, var, (v, b.term_id)),
        }
    }
    if second is Some {
        let c = second->0;
        lemma_front(c, mid);
        assert(after[0] == c);
        match b.term {
            Term::Object(_) => {},
            Term::Variable(v) => {
                lemma_pair_has((v, b.term_id), var, var);
                lemma_pair_has((v, b.term_id), (v, b.term_id), (v, b.term_id));
                lemma_pair_has((v, b.term_id), (v, b.term_id), var);
            },
        }
        lemma_pair_has(var, var, var);
        if j is Some {
            lemma_cons_has(var, sets[j->0].others, var);
        }
    }
}

/// Once a variable is kept from a term other than itself, an equality of the two is
/// refused, whatever has been added since.
pub proof fn inequality_refuses_the_equality(
    t: Typing,
    sets: Seq<Class>,
    b: Binding,
    mid: Seq<Class>,
    bs: Seq<Binding>,
    after: Seq<Class>,
)
    requires
        coherent(sets),
        !b.equality,
        b.term != Term::Variable(b.var) || b.term_id != b.var_id,
        bound(t, sets, b) == Some(mid),
        bound_all(t, mid, bs) == Some(after),
    ensures
        bound(t, after, Binding { equality: true, ..b }) is None,
{
    binding_keeps_coherent(t, sets, b, mid);
    lemma_inequality_parts(t, sets, b, mid);
    bindings_keep_coherent(t, mid, bs, after);
    parted_terms_stay_apart(t, after, Binding { equality: true, ..b });
}

/// Whether every binding of a list is an equality.
pub open spec fn all_equalities(bs: Seq<Binding>) -> bool {
    forall|i: int| 0 <= i < bs.len() ==> (#[trigger] bs[i]).equality
}

/// Whether the two terms of every binding of a list are of one class.
spec fn all_joined(sets: Seq<Class>, bs: Seq<Binding>) -> bool {
    forall|i: int| 0 <= i < bs.len() ==> joined(sets, Term::Variable((#[trigger] bs[i]).var), bs[i].var_id, bs[i].term, bs[i].term_id)
}

/// Whether each variable is of one class with the object found for it.
spec fn seen_joined(sets: Seq<Class>, id: usize, seen: Seq<(Variable, Object)>) -> bool {
    forall|i: int| 0 <= i < seen.len() ==> joined(sets, Term::Variable((#[trigger] seen[i]).0), id, Term::Object(seen[i].1), 0)
}

/// Whether the first `n` terms of two lists are of one class each.
pub open spec fn joined_upto(sets: Seq<Class>, ts1: Seq<Term>, id1: usize, ts2: Seq<Term>, id2: usize, n: nat) -> bool {
    forall|i: int| 0 <= i < n ==> joined(sets, #[trigger] ts1[i], id1, ts2[i], id2)
}

proof fn lemma_seen_joined(sets: Seq<Class>, id: usize, seen: Seq<(Variable, Object)>, v: Variable)
    requires
        seen_joined(sets, id, seen),
    ensures
        seen_object(seen, v) matches Some(o) ==> joined(sets, Term::Variable(v), id, Term::Object(o), 0),
    decreases seen.len(),
{
    if seen.len() > 0 {
        if seen[0].0 != v {
            let rest = seen.drop_first();
            assert forall|i: int| 0 <= i < rest.len() implies joined(sets, Term::Variable((#[trigger] rest[i]).0), id, Term::Object(rest[i].1), 0) by {
                assert(rest[i] == seen[i + 1]);
            }
            lemma_seen_joined(sets, id, rest, v);
        }
    }
}

proof fn lemma_push_joined(sets: Seq<Class>, bs: Seq<Binding>, b: Binding)
    ensures
        all_joined(sets, bs.push(b)) ==> all_joined(sets, bs) && joined(sets, Term::Variable(b.var), b.var_id, b.term, b.term_id),
        all_equalities(bs) && b.equality ==> all_equalities(bs.push(b)),
{
    let all = bs.push(b);
    if all_joined(sets, all) {
        assert(all[bs.len() as int] == b);
        assert forall|i: int| 0 <= i < bs.len() implies joined(sets, Term::Variable((#[trigger] bs[i]).var), bs[i].var_id, bs[i].term, bs[i].term_id) by {
            assert(all[i] == bs[i]);
        }
    }
}

proof fn lemma_ground_joined(
    t: Typing,
    sets: Seq<Class>,
    after: Seq<Class>,
    terms: Seq<Term>,
    id: usize,
    objs: Seq<Term>,
    gid: usize,
    n: nat,
)
    requires
        n <= terms.len(),
        n <= objs.len(),
        forall|i: int| 0 <= i < objs.len() ==> (#[trigger] objs[i]) is Object,
        coherent(sets),
        forall|t1: Term, id1: usize, t2: Term, id2: usize|
            #[trigger] joined(sets, t1, id1, t2, id2) ==> joined(after, t1, id1, t2, id2),
    ensures
        ({
            let m = match_ground(t, sets, terms, id, objs, n);
            m.ok && all_joined(after, m.mgu) ==> joined_upto(after, terms, id, objs, gid, n) && seen_joined(after, id, m.seen)
        }),
    decreases n,
{
    if n > 0 {
        let k = (n - 1) as nat;
        lemma_ground_joined(t, sets, after, terms, id, objs, gid, k);
        let m = match_ground(t, sets, terms, id, objs, k);
        let r = match_ground(t, sets, terms, id, objs, n);
        let term = terms[n - 1];
        assert(objs[n - 1] is Object);
        let o = objs[n - 1]->Object_0;
        if m.ok {
            match term {
                Term::Object(_) => {},
                Term::Variable(v) => {
                    let b = Binding { var: v, var_id: id, term: Term::Object(o), term_id: 0, equality: true };
                    lemma_push_joined(after, m.mgu, b);
                    if r.ok && all_joined(after, r.mgu) {
                        lemma_seen_joined(after, id, m.seen, v);
                        if resolved(sets, term, id) == Term::Object(o) {
                            assert(joined(sets, term, id, Term::Object(o), 0));
                        }
                        assert(joined(after, term, id, Term::Object(o), 0));
                        assert(joined(after, term, id, objs[n - 1], gid));
                        let seen = m.seen.push((v, o));
                        assert(seen_joined(after, id, seen));
                    }
                },
            }
        }
    }
}

proof fn lemma_ground_equalities(t: Typing, sets: Seq<Class>, terms: Seq<Term>, id: usize, objs: Seq<Term>, n: nat)
    ensures
        all_equalities(match_ground(t, sets, terms, id, objs, n).mgu),
    decreases n,
{
    if n > 0 {
        lemma_ground_equalities(t, sets, terms, id, objs, (n - 1) as nat);
    }
}

proof fn lemma_lifted_joined(t: Typing, after: Seq<Class>, ts1: Seq<Term>, id1: usize, ts2: Seq<Term>, id2: usize, n: nat)
    requires
        n <= ts1.len(),
        n <= ts2.len(),
    ensures
        ({
            let m = match_lifted(t, ts1, id1, ts2, id2, n);
            &&& all_equalities(m.mgu)
            &&& m.ok && all_joined(after, m.mgu) ==> joined_upto(after, ts1, id1, ts2, id2, n)
        }),
    decreases n,
{
    if n > 0 {
        let k = (n - 1) as nat;
        lemma_lifted_joined(t, after, ts1, id1, ts2, id2, k);
        let m = match_lifted(t, ts1, id1, ts2, id2, k);
        let r = match_lifted(t, ts1, id1, ts2, id2, n);
        if m.ok && r.mgu != m.mgu {
            lemma_push_joined(after, m.mgu, r.mgu.last());
            assert(r.mgu =~= m.mgu.push(r.mgu.last()));
        }
    }
}

/// A unifier is made of equalities.
pub proof fn unifiers_are_equalities(t: Typing, sets: Seq<Class>, a1: AtomView, id1: usize, a2: AtomView, id2: usize)
    ensures
        all_equalities(unifier(t, sets, a1, id1, a2, id2)),
{
    if a1.terms.len() == a2.terms.len() {
        let n = a1.terms.len();
        if a1.ground() {
            lemma_ground_equalities(t, sets, a2.terms, id2, a1.terms, n);
        } else if a2.ground() {
            lemma_ground_equalities(t, sets, a1.terms, id1, a2.terms, n);
        } else {
            lemma_lifted_joined(t, sets, a1.terms, id1, a2.terms, id2, n);
        }
    }
}

/// Once the unifier of two atoms is added, each term of the one and the term of the other
/// in its place are one object or of one class, and an inequality of the two is refused,
/// whatever has been added since.
pub proof fn added_unifier_joins_terms(
    t: Typing,
    sets: Seq<Class>,
    a1: AtomView,
    id1: usize,
    a2: AtomView,
    id2: usize,
    mid: Seq<Class>,
    bs: Seq<Binding>,
    after: Seq<Class>,
)
    requires
        coherent(sets),
        atoms_unify(t, sets, seq![], a1, id1, a2, id2),
        bound_all(t, sets, unifier(t, sets, a1, id1, a2, id2)) == Some(mid),
        bound_all(t, mid, bs) == Some(after),
    ensures
        forall|i: int| 0 <= i < a1.terms.len() ==> joined(after, #[trigger] a1.terms[i], id1, a2.terms[i], id2),
        forall|i: int|
            0 <= i < a1.terms.len() && a1.terms[i] is Variable ==> bound(
                t,
                after,
                Binding { var: (#[trigger] a1.terms[i])->Variable_0, var_id: id1, term: a2.terms[i], term_id: id2, equality: false },
            ) is None,
        forall|i: int|
            0 <= i < a1.terms.len() && a2.terms[i] is Variable ==> bound(
                t,
                after,
                Binding { var: (#[trigger] a2.terms[i])->Variable_0, var_id: id2, term: a1.terms[i], term_id: id1, equality: false },
            ) is None,
{
    let n = a1.terms.len();
    let u = unifier(t, sets, a1, id1, a2, id2);
    unifiers_are_equalities(t, sets, a1, id1, a2, id2);
    bindings_keep_coherent(t, sets, u, mid);
    assert(all_joined(mid, u));
    if a1.ground() && a2.ground() {
        assert forall|i: int| 0 <= i < n implies joined(mid, #[trigger] a1.terms[i], id1, a2.terms[i], id2) by {
            assert(a1.terms[i] is Object);
        }
    } else if a1.ground() {
        lemma_ground_joined(t, sets, mid, a2.terms, id2, a1.terms, id1, n);
        assert forall|i: int| 0 <= i < n implies joined(mid, #[trigger] a1.terms[i], id1, a2.terms[i], id2) by {
            assert(joined(mid, a2.terms[i], id2, a1.terms[i], id1));
        }
    } else if a2.ground() {
        lemma_ground_joined(t, sets, mid, a1.terms, id1, a2.terms, id2, n);
    } else {
        lemma_lifted_joined(t, mid, a1.terms, id1, a2.terms, id2, n);
    }
    bindings_keep_coherent(t, mid, bs, after);
    assert forall|i: int| 0 <= i < n implies joined(after, #[trigger] a1.terms[i], id1, a2.terms[i], id2) by {
        assert(joined(mid, a1.terms[i], id1, a2.terms[i], id2));
    }
    assert forall|i: int| 0 <= i < n && a2.terms[i] is Variable implies bound(
        t,
        after,
        Binding { var: (#[trigger] a2.terms[i])->Variable_0, var_id: id2, term: a1.terms[i], term_id: id1, equality: false },
    ) is None by {
        assert(joined(after, a1.terms[i], id1, a2.terms[i], id2));
    }
}

} // verus!
