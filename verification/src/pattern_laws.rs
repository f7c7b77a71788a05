//! Matching an atom against ground atoms by its resolved pattern, and by unifying, come
//! to the same.
use vstd::prelude::*;

use crate::bindings::{
    atoms_unify, bound, bound_all, class_members, classes_apart, equated, fits_pair, fits_term, fronted, ground_matches, is_excluded,
    kept_from_term, kept_from_var, lemma_found_class, lemma_found_object, match_ground, meet_in, object_class, pinned_apart, resolved, same_class,
    seen_object, term_class, unifier, var_class, Binding, Class,
};
use crate::bindings_coherence::{
    absorbs, added_unifier_joins_terms, all_equalities, binding_keeps_coherent, bindings_keep_coherent, bound_variables_stay_bound, coherent,
    is_current, joined, lemma_absorbed, lemma_equated_absorbs, lemma_front, lemma_kept_absorbs, lemma_meet_at, lemma_term_current, lemma_term_found,
    parted, takes_in, unifiers_are_equalities,
};
use crate::bindings_laws::{binding_keeps_sound, lemma_cons_has, lemma_pair_has, lemma_stacked, lemma_stacked_new, sound};
use crate::formula::AtomView;
use crate::terms::{Object, Term, Variable};
use crate::types::{subtype_is_transitive, well_typed, Type};
use crate::typing::Typing;

verus! {

/// Whether a subtype of a subtype is always a subtype.
pub open spec fn is_transitive(t: Typing) -> bool {
    forall|a: Type, b: Type, c: Type| #[trigger] t.below(a, b) && #[trigger] t.below(b, c) ==> t.below(a, c)
}

/// The types of a table are ordered transitively, where `object` has no supertype and no
/// type stands directly below a union.
pub proof fn tables_are_transitive(t: Typing)
    requires
        well_typed(t.table),
        t.table[0].supers.len() == 0,
        forall|i: int, b: Type|
            0 <= i < t.table.len() && #[trigger] t.table[i].supers.contains(b) ==> t.table[b.0 as int].components.len() == 0,
    ensures
        is_transitive(t),
{
    assert forall|a: Type, b: Type, c: Type| #[trigger] t.below(a, b) && #[trigger] t.below(b, c) implies t.below(a, c) by {
        if a.0 < t.table.len() && b.0 < t.table.len() && c.0 < t.table.len() {
            subtype_is_transitive(t.table, a, b, c);
        }
    }
}

/// Whether what an older class of an object is kept from, the object's newest is too.
pub open spec fn objects_gather(sets: Seq<Class>) -> bool {
    forall|i: int, y: (Variable, usize)|
        0 <= i < sets.len() && sets[i].constant is Some && #[trigger] sets[i].others.contains(y) ==> sets[object_class(
            sets,
            sets[i].constant->0,
        )->0].others.contains(y)
}

/// Whether a variable has a class that is kept from a member of class `i`.
pub open spec fn keeps_off(sets: Seq<Class>, i: int, y: (Variable, usize)) -> bool {
    match var_class(sets, y) {
        None => false,
        Some(k) => meet_in(sets[k].others, sets[i].members),
    }
}

/// Whether each variable that a class without an object is kept from has a class that is
/// kept from it too, but for the pairs `p` and `q` of a member and a variable.
pub open spec fn mutual_but(
    sets: Seq<Class>,
    p: Option<((Variable, usize), (Variable, usize))>,
    q: Option<((Variable, usize), (Variable, usize))>,
) -> bool {
    forall|x: (Variable, usize), y: (Variable, usize)| #[trigger]
        kept_off(sets, x, y) ==> keeps_off(sets, var_class(sets, x)->0, y) || excepted(sets, x, y, p) || excepted(sets, x, y, q)
}

/// Whether the class of `x` has no object and is kept from `y`.
pub open spec fn kept_off(sets: Seq<Class>, x: (Variable, usize), y: (Variable, usize)) -> bool {
    match var_class(sets, x) {
        None => false,
        Some(i) => sets[i].constant is None && sets[i].others.contains(y),
    }
}

pub open spec fn excepted(
    sets: Seq<Class>,
    x: (Variable, usize),
    y: (Variable, usize),
    p: Option<((Variable, usize), (Variable, usize))>,
) -> bool {
    is_pair(sets[var_class(sets, x)->0].members, y, p)
}

/// Whether `p` is a member of a list and `y`.
pub open spec fn is_pair(
    members: Seq<(Variable, usize)>,
    y: (Variable, usize),
    p: Option<((Variable, usize), (Variable, usize))>,
) -> bool {
    match p {
        None => false,
        Some(e) => y == e.1 && members.contains(e.0),
    }
}

/// Whether each variable that a class without an object is kept from has a class that is
/// kept from it too.
pub open spec fn mutual(sets: Seq<Class>) -> bool {
    mutual_but(sets, None, None)
}

/// Whether the type of a class without an object is below those of its members.
pub open spec fn narrow(t: Typing, sets: Seq<Class>) -> bool {
    forall|i: int, y: (Variable, usize)|
        0 <= i < sets.len() && sets[i].constant is None && #[trigger] sets[i].members.contains(y) ==> t.below(sets[i].ty, t.var_ty(y.0, y.1))
}

/// Classes as a chain of bindings makes them, whatever the types: coherent, with all that
/// an object is kept from in its newest class, and kept apart from both sides.
pub open spec fn composed(sets: Seq<Class>) -> bool {
    &&& coherent(sets)
    &&& objects_gather(sets)
    &&& mutual(sets)
}

/// Classes as a chain of bindings makes them.
pub open spec fn arises(t: Typing, sets: Seq<Class>) -> bool {
    &&& composed(sets)
    &&& sound(t, sets)
    &&& narrow(t, sets)
}

proof fn lemma_gathered(c: Class, sets: Seq<Class>)
    requires
        objects_gather(sets),
        absorbs(c, sets),
    ensures
        objects_gather(seq![c] + sets),
{
    let all = seq![c] + sets;
    lemma_front(c, sets);
    assert forall|i: int| 0 <= i < sets.len() implies #[trigger] all[i + 1] == sets[i] by {}
    assert forall|i: int, y: (Variable, usize)|
        0 <= i < all.len() && all[i].constant is Some && #[trigger] all[i].others.contains(y) implies all[object_class(
        all,
        all[i].constant->0,
    )->0].others.contains(y) by {
        let o = all[i].constant->0;
        if i > 0 {
            assert(sets[i - 1].others.contains(y));
            lemma_found_object(sets, o);
            assert(sets[object_class(sets, o)->0].others.contains(y));
            if c.constant == Some(o) {
                assert(takes_in(c, sets, object_class(sets, o)));
            }
        }
    }
}

/// Whether what a class is kept from comes from a class that it takes in, but for the
/// pairs `p` and `q`.
spec fn inherits(
    c: Class,
    sets: Seq<Class>,
    p: Option<((Variable, usize), (Variable, usize))>,
    q: Option<((Variable, usize), (Variable, usize))>,
) -> bool {
    c.constant is None ==> forall|y: (Variable, usize)| #[trigger]
        c.others.contains(y) ==> {
            ||| exists|z: (Variable, usize)| #[trigger] c.members.contains(z) && kept_off(sets, z, y)
            ||| is_pair(c.members, y, p)
            ||| is_pair(c.members, y, q)
        }
}

proof fn lemma_meet_wider(a: Seq<(Variable, usize)>, b: Seq<(Variable, usize)>, a2: Seq<(Variable, usize)>, b2: Seq<(Variable, usize)>)
    requires
        meet_in(a, b),
        forall|y: (Variable, usize)| #[trigger] a.contains(y) ==> a2.contains(y),
        forall|y: (Variable, usize)| #[trigger] b.contains(y) ==> b2.contains(y),
    ensures
        meet_in(a2, b2),
{
    let i = choose|i: int| 0 <= i < a.len() && b.contains(#[trigger] a[i]);
    assert(a.contains(a[i]));
    lemma_meet_at(a2, b2, a[i]);
}

/// A class whose bars are inherited keeps bars mutual, but for the pairs `p` and `q`.
proof fn lemma_mutual_front(
    c: Class,
    sets: Seq<Class>,
    p: Option<((Variable, usize), (Variable, usize))>,
    q: Option<((Variable, usize), (Variable, usize))>,
)
    requires
        coherent(sets),
        absorbs(c, sets),
        inherits(c, sets, p, q),
        mutual_but(sets, p, q),
    ensures
        mutual_but(seq![c] + sets, p, q),
{
    let all = seq![c] + sets;
    lemma_front(c, sets);
    assert forall|i: int| 0 <= i < sets.len() implies #[trigger] all[i + 1] == sets[i] by {}
    assert forall|x: (Variable, usize), y: (Variable, usize)| #[trigger] kept_off(all, x, y) implies keeps_off(all, var_class(all, x)->0, y)
        || excepted(all, x, y, p) || excepted(all, x, y, q) by {
        lemma_found_class(sets, x);
        lemma_found_class(sets, y);
        if c.members.contains(x) {
            assert(all[0] == c);
            if !excepted(all, x, y, p) && !excepted(all, x, y, q) {
                let z = choose|z: (Variable, usize)| #[trigger] c.members.contains(z) && kept_off(sets, z, y);
                lemma_found_class(sets, z);
                let k = var_class(sets, z)->0;
                assert(takes_in(c, sets, Some(k)));
                if keeps_off(sets, k, y) {
                    let m = var_class(sets, y)->0;
                    if c.members.contains(y) {
                        assert(takes_in(c, sets, Some(m)));
                        lemma_meet_wider(sets[m].others, sets[k].members, c.others, c.members);
                    } else {
                        lemma_meet_wider(sets[m].others, sets[k].members, sets[m].others, c.members);
                    }
                }
            }
        } else {
            let i = var_class(sets, x)->0;
            assert(kept_off(sets, x, y));
            if keeps_off(sets, i, y) {
                let m = var_class(sets, y)->0;
                if c.members.contains(y) {
                    assert(takes_in(c, sets, Some(m)));
                    assert(all[0] == c);
                    lemma_meet_wider(sets[m].others, sets[i].members, c.others, sets[i].members);
                }
            }
        }
    }
}

proof fn lemma_equated_inherits(
    t: Typing,
    sets: Seq<Class>,
    b: Binding,
    c: Class,
)
    requires
        b.equality,
        equated(t, sets, b) == Some(c),
        coherent(sets),
    ensures
        inherits(c, sets, None, None),
{
    let var = (b.var, b.var_id);
    lemma_term_found(sets, b.term, b.term_id);
    lemma_found_class(sets, var);
    if c.constant is None {
        let other = (b.term->Variable_0, b.term_id);
        assert forall|y: (Variable, usize)| #[trigger] c.others.contains(y) implies exists|z: (Variable, usize)| #[trigger]
            c.members.contains(z) && kept_off(sets, z, y) by {
            match (var_class(sets, var), term_class(sets, b.term, b.term_id)) {
                (None, None) => {},
                (Some(i), Some(j)) => {
                    lemma_stacked(sets[j].members, sets[i].members, var);
                    lemma_stacked(sets[j].members, sets[i].members, other);
                    lemma_stacked_new(sets[j].others, sets[i].others, sets[i].others, y);
                    if sets[i].others.contains(y) {
                        assert(c.members.contains(var) && kept_off(sets, var, y));
                    } else {
                        assert(c.members.contains(other) && kept_off(sets, other, y));
                    }
                },
                (None, Some(j)) => {
                    lemma_cons_has(var, sets[j].members, other);
                    assert(c.members.contains(other) && kept_off(sets, other, y));
                },
                (Some(i), None) => {
                    lemma_cons_has(other, sets[i].members, var);
                    assert(c.members.contains(var) && kept_off(sets, var, y));
                },
            }
        }
    }
}

proof fn lemma_kept_inherits(t: Typing, sets: Seq<Class>, b: Binding)
    requires
        !b.equality,
        bound(t, sets, b) is Some,
        coherent(sets),
    ensures
        ({
            let var = (b.var, b.var_id);
            let other = (b.term->Variable_0, b.term_id);
            &&& kept_from_term(t, sets, b) matches Some(c) ==> b.term is Variable && c.members.contains(var) && c.others.contains(other)
                && inherits(c, sets, Some((var, other)), Some((other, var)))
            &&& kept_from_var(t, sets, b) matches Some(c) ==> (b.term is Object ==> c.constant is Some) && (b.term is Variable
                ==> c.members.contains(other) && c.others.contains(var)) && inherits(
                c,
                fronted(kept_from_term(t, sets, b), sets),
                Some((var, other)),
                Some((other, var)),
            )
        }),
{
    let var = (b.var, b.var_id);
    let other = (b.term->Variable_0, b.term_id);
    let i = var_class(sets, var);
    let j = term_class(sets, b.term, b.term_id);
    lemma_term_found(sets, b.term, b.term_id);
    lemma_found_class(sets, var);
    lemma_pair_has(var, var, var);
    lemma_pair_has(other, other, other);
    let first = kept_from_term(t, sets, b);
    if first is Some {
        let c = first->0;
        if i is Some {
            lemma_cons_has(other, sets[i->0].others, other);
        }
        assert forall|y: (Variable, usize)| c.constant is None && #[trigger] c.others.contains(y) implies y == other || (c.members.contains(var)
            && kept_off(sets, var, y)) by {
            lemma_pair_has(other, other, y);
            if i is Some {
                lemma_cons_has(other, sets[i->0].others, y);
            }
        }
        lemma_front(c, sets);
    }
    let mid = fronted(first, sets);
    let second = kept_from_var(t, sets, b);
    if second is Some {
        let c = second->0;
        if j is Some {
            lemma_cons_has(var, sets[j->0].others, var);
            lemma_term_current(sets, b.term, b.term_id);
        }
        if i is Some {
            lemma_term_current(sets, Term::Variable(b.var), b.var_id);
        }
        assert forall|y: (Variable, usize)| c.constant is None && #[trigger] c.others.contains(y) implies y == var || (c.members.contains(other)
            && kept_off(mid, other, y)) by {
            lemma_pair_has(var, var, y);
            if j is Some {
                lemma_cons_has(var, sets[j->0].others, y);
                if first is Some {
                    assert(mid[j->0 + 1] == sets[j->0]);
                    if first->0.members.contains(other) {
                        lemma_pair_has(var, var, other);
                        assert(i is None ==> other == var);
                    }
                }
            }
        }
    }
}

/// An inequality of two variables has each one's class kept from the other.
proof fn lemma_both_kept(t: Typing, sets: Seq<Class>, b: Binding, after: Seq<Class>)
    requires
        coherent(sets),
        !b.equality,
        b.term is Variable,
        bound(t, sets, b) == Some(after),
    ensures
        ({
            let var = (b.var, b.var_id);
            let other = (b.term->Variable_0, b.term_id);
            &&& var_class(after, var) is Some && after[var_class(after, var)->0].others.contains(other)
            &&& var_class(after, other) is Some && after[var_class(after, other)->0].others.contains(var)
        }),
{
    let var = (b.var, b.var_id);
    let other = (b.term->Variable_0, b.term_id);
    let i = var_class(sets, var);
    let j = var_class(sets, other);
    if i is Some {
        lemma_term_current(sets, Term::Variable(b.var), b.var_id);
    }
    if j is Some {
        lemma_term_current(sets, b.term, b.term_id);
    }
    lemma_found_class(sets, var);
    lemma_found_class(sets, other);
    lemma_kept_inherits(t, sets, b);
    lemma_pair_has(var, var, other);
    lemma_pair_has(other, other, var);
    let first = kept_from_term(t, sets, b);
    let mid = fronted(first, sets);
    let second = kept_from_var(t, sets, b);
    if first is Some {
        lemma_front(first->0, sets);
        assert(mid[0] == first->0);
        assert forall|k: int| 0 <= k < sets.len() implies #[trigger] mid[k + 1] == sets[k] by {}
    }
    if second is Some {
        lemma_front(second->0, mid);
        assert(after[0] == second->0);
        assert forall|k: int| 0 <= k < mid.len() implies #[trigger] after[k + 1] == mid[k] by {}
    }
}

/// Adding a binding keeps bars mutual.
proof fn lemma_mutual_kept(t: Typing, sets: Seq<Class>, b: Binding, after: Seq<Class>)
    requires
        coherent(sets),
        mutual(sets),
        bound(t, sets, b) == Some(after),
    ensures
        mutual(after),
{
    let var = (b.var, b.var_id);
    if b.equality {
        let c = equated(t, sets, b)->0;
        lemma_equated_absorbs(t, sets, b, c);
        lemma_equated_inherits(t, sets, b, c);
        lemma_mutual_front(c, sets, None, None);
    } else {
        lemma_kept_absorbs(t, sets, b);
        lemma_kept_inherits(t, sets, b);
        let first = kept_from_term(t, sets, b);
        let mid = fronted(first, sets);
        let second = kept_from_var(t, sets, b);
        if b.term is Object {
            if second is Some {
                lemma_mutual_front(second->0, sets, None, None);
            }
        } else {
            let other = (b.term->Variable_0, b.term_id);
            let p = Some((var, other));
            let q = Some((other, var));
            assert(mutual_but(sets, p, q)) by {
                assert forall|x: (Variable, usize), y: (Variable, usize)| #[trigger] kept_off(sets, x, y) implies keeps_off(
                    sets,
                    var_class(sets, x)->0,
                    y,
                ) by {}
            }
            if first is Some {
                lemma_absorbed(first->0, sets);
                lemma_mutual_front(first->0, sets, p, q);
            }
            if second is Some {
                lemma_mutual_front(second->0, mid, p, q);
            }
            binding_keeps_coherent(t, sets, b, after);
            lemma_both_kept(t, sets, b, after);
            lemma_found_class(after, var);
            lemma_found_class(after, other);
            let k = var_class(after, var)->0;
            let l = var_class(after, other)->0;
            lemma_meet_at(after[k].others, after[l].members, other);
            lemma_meet_at(after[l].others, after[k].members, var);
            assert forall|x: (Variable, usize), y: (Variable, usize)| #[trigger] kept_off(after, x, y) implies keeps_off(
                after,
                var_class(after, x)->0,
                y,
            ) by {
                assert(is_current(after, var_class(after, x)->0));
            }
        }
    }
}

proof fn lemma_narrow_front(t: Typing, c: Class, sets: Seq<Class>)
    requires
        narrow(t, sets),
        c.constant is None ==> forall|y: (Variable, usize)| #[trigger] c.members.contains(y) ==> t.below(c.ty, t.var_ty(y.0, y.1)),
    ensures
        narrow(t, seq![c] + sets),
{
    let all = seq![c] + sets;
    assert forall|i: int, y: (Variable, usize)|
        0 <= i < all.len() && all[i].constant is None && #[trigger] all[i].members.contains(y) implies t.below(
        all[i].ty,
        t.var_ty(y.0, y.1),
    ) by {
        if i > 0 {
            assert(all[i] == sets[i - 1]);
        }
    }
}

proof fn lemma_narrow_kept(t: Typing, sets: Seq<Class>, b: Binding, after: Seq<Class>)
    requires
        is_transitive(t),
        narrow(t, sets),
        bound(t, sets, b) == Some(after),
    ensures
        narrow(t, after),
{
    let var = (b.var, b.var_id);
    lemma_term_found(sets, b.term, b.term_id);
    lemma_found_class(sets, var);
    let other = (b.term->Variable_0, b.term_id);
    if b.equality {
        let c = equated(t, sets, b)->0;
        assert forall|y: (Variable, usize)| c.constant is None && #[trigger] c.members.contains(y) implies t.below(c.ty, t.var_ty(y.0, y.1)) by {
            match (var_class(sets, var), term_class(sets, b.term, b.term_id)) {
                (None, None) => {
                    lemma_pair_has(other, var, y);
                },
                (Some(i), Some(j)) => {
                    lemma_stacked(sets[j].members, sets[i].members, y);
                },
                (None, Some(j)) => {
                    lemma_cons_has(var, sets[j].members, y);
                },
                (Some(i), None) => {
                    lemma_cons_has(other, sets[i].members, y);
                },
            }
        }
        lemma_narrow_front(t, c, sets);
    } else {
        let first = kept_from_term(t, sets, b);
        let mid = fronted(first, sets);
        let second = kept_from_var(t, sets, b);
        if first is Some {
            let c = first->0;
            assert forall|y: (Variable, usize)| c.constant is None && #[trigger] c.members.contains(y) implies t.below(c.ty, t.var_ty(y.0, y.1)) by {
                lemma_pair_has(var, var, y);
            }
            lemma_narrow_front(t, c, sets);
        }
        if second is Some {
            let c = second->0;
            assert forall|y: (Variable, usize)| c.constant is None && #[trigger] c.members.contains(y) implies t.below(c.ty, t.var_ty(y.0, y.1)) by {
                lemma_pair_has(other, other, y);
            }
            lemma_narrow_front(t, c, mid);
        }
    }
}

/// A chain without classes arises from bindings.
pub proof fn no_classes_arise(t: Typing)
    ensures
        arises(t, Seq::empty()),
{
}

/// A chain without classes is composed.
pub proof fn no_classes_are_composed()
    ensures
        composed(Seq::empty()),
{
}

/// Adding a binding keeps classes composed.
pub proof fn binding_keeps_composed(t: Typing, sets: Seq<Class>, b: Binding, after: Seq<Class>)
    requires
        composed(sets),
        bound(t, sets, b) == Some(after),
    ensures
        composed(after),
{
    binding_keeps_coherent(t, sets, b, after);
    lemma_mutual_kept(t, sets, b, after);
    if b.equality {
        let c = equated(t, sets, b)->0;
        lemma_equated_absorbs(t, sets, b, c);
        lemma_gathered(c, sets);
    } else {
        lemma_kept_absorbs(t, sets, b);
        let first = kept_from_term(t, sets, b);
        if first is Some {
            lemma_gathered(first->0, sets);
        }
        let second = kept_from_var(t, sets, b);
        if second is Some {
            lemma_gathered(second->0, fronted(first, sets));
        }
    }
}

/// Adding bindings keeps classes composed.
pub proof fn bindings_keep_composed(t: Typing, sets: Seq<Class>, bs: Seq<Binding>, after: Seq<Class>)
    requires
        composed(sets),
        bound_all(t, sets, bs) == Some(after),
    ensures
        composed(after),
    decreases bs.len(),
{
    if bs.len() > 0 {
        let mid = bound_all(t, sets, bs.drop_last())->0;
        bindings_keep_composed(t, sets, bs.drop_last(), mid);
        binding_keeps_composed(t, mid, bs.last(), after);
    }
}

/// Adding a binding to classes that arise from bindings gives such classes.
pub proof fn binding_keeps_arising(t: Typing, sets: Seq<Class>, b: Binding, after: Seq<Class>)
    requires
        is_transitive(t),
        arises(t, sets),
        bound(t, sets, b) == Some(after),
    ensures
        arises(t, after),
{
    binding_keeps_composed(t, sets, b, after);
    binding_keeps_sound(t, sets, b, after);
    lemma_narrow_kept(t, sets, b, after);
}

/// Adding bindings to classes that arise from bindings gives such classes.
pub proof fn bindings_keep_arising(t: Typing, sets: Seq<Class>, bs: Seq<Binding>, after: Seq<Class>)
    requires
        is_transitive(t),
        arises(t, sets),
        bound_all(t, sets, bs) == Some(after),
    ensures
        arises(t, after),
    decreases bs.len(),
{
    if bs.len() > 0 {
        let mid = bound_all(t, sets, bs.drop_last())->0;
        bindings_keep_arising(t, sets, bs.drop_last(), mid);
        binding_keeps_arising(t, mid, bs.last(), after);
    }
}

/// Whether each variable's class has become a class of a narrower type.
spec fn tightened(t: Typing, sets: Seq<Class>, after: Seq<Class>) -> bool {
    forall|x: (Variable, usize)|
        (#[trigger] var_class(sets, x)) is Some ==> var_class(after, x) is Some && t.below(
            after[var_class(after, x)->0].ty,
            sets[var_class(sets, x)->0].ty,
        )
}

proof fn lemma_equated_tightens(t: Typing, sets: Seq<Class>, b: Binding, after: Seq<Class>)
    requires
        b.equality,
        bound(t, sets, b) == Some(after),
        coherent(sets),
        sound(t, sets),
    ensures
        tightened(t, sets, after),
{
    let c = equated(t, sets, b)->0;
    let var = (b.var, b.var_id);
    let other = (b.term->Variable_0, b.term_id);
    lemma_front(c, sets);
    lemma_term_found(sets, b.term, b.term_id);
    lemma_found_class(sets, var);
    let i = var_class(sets, var);
    let j = term_class(sets, b.term, b.term_id);
    if i is Some {
        lemma_term_current(sets, Term::Variable(b.var), b.var_id);
    }
    if j is Some {
        lemma_term_current(sets, b.term, b.term_id);
    }
    assert forall|x: (Variable, usize)| (#[trigger] var_class(sets, x)) is Some implies var_class(after, x) is Some && t.below(
        after[var_class(after, x)->0].ty,
        sets[var_class(sets, x)->0].ty,
    ) by {
        lemma_found_class(sets, x);
        let k = var_class(sets, x)->0;
        if c.members.contains(x) {
            assert(after[0] == c);
            match (i, j) {
                (None, None) => {
                    match b.term {
                        Term::Object(_) => lemma_pair_has(var, var, x),
                        Term::Variable(_) => lemma_pair_has(other, var, x),
                    }
                },
                (Some(m), Some(n)) => {
                    lemma_stacked(sets[n].members, sets[m].members, x);
                },
                (None, Some(n)) => {
                    lemma_cons_has(var, sets[n].members, x);
                },
                (Some(m), None) => {
                    lemma_cons_has(other, sets[m].members, x);
                },
            }
        } else {
            assert(after[k + 1] == sets[k]);
        }
    }
}

proof fn lemma_all_tighten(t: Typing, sets: Seq<Class>, bs: Seq<Binding>, after: Seq<Class>)
    requires
        is_transitive(t),
        arises(t, sets),
        all_equalities(bs),
        bound_all(t, sets, bs) == Some(after),
    ensures
        arises(t, after),
        tightened(t, sets, after),
    decreases bs.len(),
{
    if bs.len() > 0 {
        let front = bs.drop_last();
        let mid = bound_all(t, sets, front)->0;
        assert forall|i: int| 0 <= i < front.len() implies (#[trigger] front[i]).equality by {
            assert(front[i] == bs[i]);
        }
        lemma_all_tighten(t, sets, front, mid);
        assert(bs[bs.len() - 1].equality);
        lemma_equated_tightens(t, mid, bs.last(), after);
        binding_keeps_arising(t, mid, bs.last(), after);
        assert forall|x: (Variable, usize)| (#[trigger] var_class(sets, x)) is Some implies var_class(after, x) is Some && t.below(
            after[var_class(after, x)->0].ty,
            sets[var_class(sets, x)->0].ty,
        ) by {
            assert(var_class(mid, x) is Some);
        }
    }
}

/// Whether an object is of the type of a variable, where that is unbound.
spec fn is_typed(t: Typing, sets: Seq<Class>, v: Variable, id: usize, o: Object) -> bool {
    resolved(sets, Term::Variable(v), id) is Variable ==> t.below(t.object_ty(o), t.var_ty(v, id))
}

proof fn lemma_seen_at(seen: Seq<(Variable, Object)>, v: Variable)
    ensures
        match seen_object(seen, v) {
            Some(o) => exists|i: int| 0 <= i < seen.len() && #[trigger] seen[i] == (v, o),
            None => forall|i: int| 0 <= i < seen.len() ==> (#[trigger] seen[i]).0 != v,
        },
    decreases seen.len(),
{
    if seen.len() > 0 {
        let rest = seen.drop_first();
        if seen[0].0 != v {
            lemma_seen_at(rest, v);
            assert forall|i: int| 0 < i < seen.len() implies #[trigger] seen[i] == rest[i - 1] by {}
            if seen_object(rest, v) is Some {
                let o = seen_object(rest, v)->0;
                let i = choose|i: int| 0 <= i < rest.len() && #[trigger] rest[i] == (v, o);
                assert(seen[i + 1] == (v, o));
            }
        } else {
            assert(seen[0] == (v, seen[0].1));
        }
    }
}

proof fn lemma_ground_typed(t: Typing, sets: Seq<Class>, terms: Seq<Term>, id: usize, objs: Seq<Term>, n: nat)
    requires
        n <= terms.len(),
        match_ground(t, sets, terms, id, objs, n).ok,
    ensures
        forall|i: int|
            0 <= i < n && (#[trigger] terms[i]) is Variable ==> is_typed(t, sets, terms[i]->Variable_0, id, objs[i]->Object_0),
        forall|k: int|
            #![trigger match_ground(t, sets, terms, id, objs, n).seen[k]]
            0 <= k < match_ground(t, sets, terms, id, objs, n).seen.len() ==> is_typed(
                t,
                sets,
                match_ground(t, sets, terms, id, objs, n).seen[k].0,
                id,
                match_ground(t, sets, terms, id, objs, n).seen[k].1,
            ),
    decreases n,
{
    if n > 0 {
        let p = (n - 1) as nat;
        lemma_ground_typed(t, sets, terms, id, objs, p);
        let m = match_ground(t, sets, terms, id, objs, p);
        let r = match_ground(t, sets, terms, id, objs, n);
        if terms[n - 1] is Variable {
            let v = terms[n - 1]->Variable_0;
            lemma_seen_at(m.seen, v);
            assert(is_typed(t, sets, v, id, objs[n - 1]->Object_0));
        }
        assert forall|k: int| 0 <= k < r.seen.len() implies is_typed(t, sets, (#[trigger] r.seen[k]).0, id, r.seen[k].1) by {
            if k < m.seen.len() {
                assert(r.seen[k] == m.seen[k]);
            }
        }
    }
}

/// A ground atom that unifies with an atom matches its pattern.
proof fn lemma_unified_matches(t: Typing, sets: Seq<Class>, a: AtomView, id: usize, g: AtomView, gid: usize)
    requires
        is_transitive(t),
        arises(t, sets),
        g.ground(),
        atoms_unify(t, sets, seq![], a, id, g, gid),
    ensures
        ground_matches(t, sets, a.terms, id, g.terms),
{
    let n = a.terms.len();
    let u = unifier(t, sets, a, id, g, gid);
    assert(seq![] + u =~= u);
    assert forall|i: int| 0 <= i < n implies (#[trigger] g.terms[i]) is Object by {}
    if a.ground() {
        assert(u =~= seq![]);
        assert(bound_all(t, sets, u) == Some(sets));
    }
    if !a.ground() {
        lemma_ground_typed(t, sets, a.terms, id, g.terms, n);
    }
    let after = bound_all(t, sets, u)->0;
    added_unifier_joins_terms(t, sets, a, id, g, gid, after, seq![], after);
    unifiers_are_equalities(t, sets, a, id, g, gid);
    bindings_keep_coherent(t, sets, u, after);
    lemma_all_tighten(t, sets, u, after);
    assert forall|i: int| 0 <= i < n implies fits_term(t, sets, #[trigger] a.terms[i], id, g.terms[i]->Object_0) by {
        let o = g.terms[i]->Object_0;
        assert(g.terms[i] is Object);
        assert(joined(after, a.terms[i], id, g.terms[i], gid));
        lemma_term_found(after, g.terms[i], gid);
        match a.terms[i] {
            Term::Object(_) => {
                lemma_term_found(after, a.terms[i], id);
            },
            Term::Variable(v) => {
                lemma_found_class(sets, (v, id));
                match resolved(sets, a.terms[i], id) {
                    Term::Object(p) => {
                        bound_variables_stay_bound(t, sets, u, after, v, id);
                    },
                    Term::Variable(_) => {
                        assert(!a.ground());
                        assert(is_typed(t, sets, v, id, o));
                        lemma_joined_fits(t, sets, after, v, id, o);
                    },
                }
            },
        }
    }
    assert forall|i: int, j: int| 0 <= i < j < n implies fits_pair(
        sets,
        #[trigger] a.terms[i],
        #[trigger] a.terms[j],
        id,
        g.terms[i]->Object_0,
        g.terms[j]->Object_0,
    ) by {
        assert(g.terms[i] is Object && g.terms[j] is Object);
        assert(joined(after, a.terms[i], id, g.terms[i], gid));
        assert(joined(after, a.terms[j], id, g.terms[j], gid));
        lemma_term_found(after, g.terms[i], gid);
        lemma_term_found(after, g.terms[j], gid);
        match (resolved(sets, a.terms[i], id), resolved(sets, a.terms[j], id)) {
            (Term::Variable(v), Term::Variable(w)) => {
                lemma_joined_pair(sets, after, v, w, id, g.terms[i]->Object_0, g.terms[j]->Object_0);
            },
            _ => {},
        }
    }
}

/// An object that an unbound variable has come to share a class with fits it.
proof fn lemma_joined_fits(t: Typing, sets: Seq<Class>, after: Seq<Class>, v: Variable, id: usize, o: Object)
    requires
        arises(t, sets),
        arises(t, after),
        tightened(t, sets, after),
        resolved(sets, Term::Variable(v), id) is Variable,
        joined(after, Term::Variable(v), id, Term::Object(o), 0),
        forall|t1: Term, id1: usize, t2: Term, id2: usize|
            #[trigger] joined(sets, t1, id1, t2, id2) ==> joined(after, t1, id1, t2, id2),
        forall|x: (Variable, usize), term: Term, id: usize| #[trigger] parted(sets, x, term, id) ==> parted(after, x, term, id),
        var_class(sets, (v, id)) is None ==> t.below(t.object_ty(o), t.var_ty(v, id)),
    ensures
        fits_term(t, sets, Term::Variable(v), id, o),
{
    let var = (v, id);
    lemma_found_class(sets, var);
    lemma_found_object(after, o);
    let k = object_class(after, o)->0;
    assert(after[k].ty == t.object_ty(o));
    if is_excluded(sets, v, id, o) {
        let i = choose|i: int| 0 <= i < sets.len() && #[trigger] pinned_apart(sets, i, var, o);
        let others = sets[i].others;
        let members = class_members(sets, var);
        let m = choose|m: int| 0 <= m < others.len() && members.contains(#[trigger] others[m]);
        let x = others[m];
        assert(sets[i].others.contains(x));
        lemma_found_object(sets, o);
        lemma_found_class(sets, x);
        let j = object_class(sets, o)->0;
        assert(sets[j].others.contains(x));
        if var_class(sets, var) is Some {
            assert(is_current(sets, var_class(sets, var)->0));
            assert(joined(sets, Term::Variable(v), id, Term::Variable(x.0), x.1));
        }
        assert(var_class(sets, x) != Some(j));
        assert(parted(sets, x, Term::Object(o), 0));
        assert(parted(after, x, Term::Object(o), 0));
        assert(var_class(after, x) == var_class(after, var));
        assert(false);
    }
}

/// Objects that two unbound variables have come to share classes with fit the two.
proof fn lemma_joined_pair(sets: Seq<Class>, after: Seq<Class>, v: Variable, w: Variable, id: usize, o1: Object, o2: Object)
    requires
        coherent(sets),
        resolved(sets, Term::Variable(v), id) is Variable,
        resolved(sets, Term::Variable(w), id) is Variable,
        joined(after, Term::Variable(v), id, Term::Object(o1), 0),
        joined(after, Term::Variable(w), id, Term::Object(o2), 0),
        forall|t1: Term, id1: usize, t2: Term, id2: usize|
            #[trigger] joined(sets, t1, id1, t2, id2) ==> joined(after, t1, id1, t2, id2),
        forall|x: (Variable, usize), term: Term, id: usize| #[trigger] parted(sets, x, term, id) ==> parted(after, x, term, id),
    ensures
        fits_pair(sets, Term::Variable(v), Term::Variable(w), id, o1, o2),
{
    lemma_found_object(after, o1);
    lemma_found_object(after, o2);
    lemma_found_class(sets, (v, id));
    lemma_found_class(sets, (w, id));
    if same_class(sets, v, w, id) {
        if v != w {
            assert(joined(sets, Term::Variable(v), id, Term::Variable(w), id));
        }
    } else if classes_apart(sets, v, w, id) {
        let i = var_class(sets, (v, id))->0;
        let j = var_class(sets, (w, id))->0;
        assert(is_current(sets, i) && is_current(sets, j));
        if meet_in(sets[i].others, sets[j].members) {
            let m = choose|m: int| 0 <= m < sets[i].others.len() && sets[j].members.contains(#[trigger] sets[i].others[m]);
            let x = sets[i].others[m];
            assert(sets[i].others.contains(x));
            assert(parted(sets, x, Term::Variable(v), id));
            assert(joined(sets, Term::Variable(w), id, Term::Variable(x.0), x.1));
            assert(parted(after, x, Term::Variable(v), id));
        } else {
            let m = choose|m: int| 0 <= m < sets[j].others.len() && sets[i].members.contains(#[trigger] sets[j].others[m]);
            let x = sets[j].others[m];
            assert(sets[j].others.contains(x));
            assert(parted(sets, x, Term::Variable(w), id));
            assert(joined(sets, Term::Variable(v), id, Term::Variable(x.0), x.1));
            assert(parted(after, x, Term::Variable(w), id));
        }
    }
}

/// Whether a variable of a step is bound to no object.
spec fn is_unbound(sets: Seq<Class>, x: (Variable, usize)) -> bool {
    resolved(sets, Term::Variable(x.0), x.1) is Variable
}

/// The variable that a binding is of.
spec fn subject(b: Binding) -> (Variable, usize) {
    (b.var, b.var_id)
}

/// Whether a variable is in the class of a variable that some binding is of.
spec fn is_taken(sets: Seq<Class>, done: Seq<Binding>, x: (Variable, usize)) -> bool {
    exists|d: int| 0 <= d < done.len() && class_members(sets, subject(#[trigger] done[d])).contains(x)
}

/// Whether a variable was in the class of `o`, or in one that a binding brought to it.
spec fn comes_in(sets: Seq<Class>, done: Seq<Binding>, o: Object, y: (Variable, usize)) -> bool {
    ||| object_class(sets, o) is Some && sets[object_class(sets, o)->0].members.contains(y)
    ||| exists|d: int| 0 <= d < done.len() && (#[trigger] done[d]).term == Term::Object(o) && class_members(sets, subject(done[d])).contains(y)
}

/// Whether the class of `o` was kept from a variable, or one that a binding brought to it.
spec fn comes_off(sets: Seq<Class>, done: Seq<Binding>, o: Object, y: (Variable, usize)) -> bool {
    ||| object_class(sets, o) is Some && sets[object_class(sets, o)->0].others.contains(y)
    ||| exists|d: int|
        0 <= d < done.len() && (#[trigger] done[d]).term == Term::Object(o) && var_class(sets, subject(done[d])) is Some && sets[var_class(
            sets,
            subject(done[d]),
        )->0].others.contains(y)
}

/// Whether the class of a variable is the same in two chains.
spec fn is_same_class(sets: Seq<Class>, now: Seq<Class>, x: (Variable, usize)) -> bool {
    match var_class(sets, x) {
        None => var_class(now, x) is None,
        Some(i) => var_class(now, x) is Some && now[var_class(now, x)->0] == sets[i],
    }
}

/// Whether the classes after bindings of unbound variables to objects are those before,
/// but that each binding brought the class of its variable to its object.
spec fn tracks(sets: Seq<Class>, now: Seq<Class>, done: Seq<Binding>) -> bool {
    &&& forall|x: (Variable, usize)| #![trigger var_class(now, x)] is_unbound(sets, x) && !is_taken(sets, done, x) ==> is_same_class(sets, now, x)
    &&& forall|o: Object, y: (Variable, usize)|
        object_class(now, o) is Some && #[trigger] now[object_class(now, o)->0].members.contains(y) ==> comes_in(sets, done, o, y)
    &&& forall|o: Object, y: (Variable, usize)|
        object_class(now, o) is Some && #[trigger] now[object_class(now, o)->0].others.contains(y) ==> comes_off(sets, done, o, y)
}

/// What a class that an equality with an object makes holds.
proof fn lemma_pinned_content(t: Typing, sets: Seq<Class>, b: Binding, c: Class, o: Object)
    requires
        b.equality,
        b.term == Term::Object(o),
        equated(t, sets, b) == Some(c),
    ensures
        c.constant == Some(o),
        forall|y: (Variable, usize)| #[trigger]
            c.members.contains(y) ==> class_members(sets, subject(b)).contains(y) || (object_class(sets, o) is Some && sets[object_class(
                sets,
                o,
            )->0].members.contains(y)),
        forall|y: (Variable, usize)| #[trigger]
            c.others.contains(y) ==> (var_class(sets, subject(b)) is Some && sets[var_class(sets, subject(b))->0].others.contains(y)) || (
            object_class(sets, o) is Some && sets[object_class(sets, o)->0].others.contains(y)),
{
    let var = subject(b);
    lemma_found_class(sets, var);
    lemma_found_object(sets, o);
    assert forall|y: (Variable, usize)| #[trigger] c.members.contains(y) implies class_members(sets, var).contains(y) || (object_class(
        sets,
        o,
    ) is Some && sets[object_class(sets, o)->0].members.contains(y)) by {
        match (var_class(sets, var), object_class(sets, o)) {
            (None, None) => {},
            (Some(i), Some(j)) => lemma_stacked(sets[j].members, sets[i].members, y),
            (None, Some(j)) => {
                lemma_cons_has(var, sets[j].members, y);
                lemma_pair_has(var, var, y);
            },
            (Some(_), None) => {},
        }
    }
    assert forall|y: (Variable, usize)| #[trigger] c.others.contains(y) implies (var_class(sets, var) is Some && sets[var_class(
        sets,
        var,
    )->0].others.contains(y)) || (object_class(sets, o) is Some && sets[object_class(sets, o)->0].others.contains(y)) by {
        match (var_class(sets, var), object_class(sets, o)) {
            (Some(i), Some(j)) => lemma_stacked_new(sets[j].others, sets[i].others, sets[i].others, y),
            _ => {},
        }
    }
}

/// Whether a binding may follow others: it equates an unbound variable with an object
/// that fits it, alone and with what the others equate.
spec fn may_follow(t: Typing, sets: Seq<Class>, done: Seq<Binding>, b: Binding) -> bool {
    &&& b.equality
    &&& b.term is Object
    &&& is_unbound(sets, subject(b))
    &&& is_typed(t, sets, b.var, b.var_id, b.term->Object_0)
    &&& fits_term(t, sets, Term::Variable(b.var), b.var_id, b.term->Object_0)
    &&& forall|d: int|
        0 <= d < done.len() ==> {
            &&& (#[trigger] done[d]).equality
            &&& done[d].var_id == b.var_id
            &&& done[d].term is Object
            &&& is_unbound(sets, subject(done[d]))
            &&& fits_pair(sets, Term::Variable(done[d].var), Term::Variable(b.var), b.var_id, done[d].term->Object_0, b.term->Object_0)
        }
}

/// A variable in the class of one that was brought to an object is in the object's class.
proof fn lemma_taken(t: Typing, sets: Seq<Class>, now: Seq<Class>, done: Seq<Binding>, b: Binding)
    requires
        arises(t, sets),
        arises(t, now),
        bound_all(t, sets, done) == Some(now),
        may_follow(t, sets, done, b),
        is_taken(sets, done, subject(b)),
    ensures
        var_class(now, subject(b)) is Some,
        var_class(now, subject(b)) == object_class(now, b.term->Object_0),
{
    let var = subject(b);
    let d = choose|d: int| 0 <= d < done.len() && class_members(sets, subject(#[trigger] done[d])).contains(var);
    let e = done[d];
    bindings_keep_coherent(t, sets, done, now);
    assert(joined(now, Term::Variable(e.var), e.var_id, e.term, e.term_id));
    lemma_found_class(sets, subject(e));
    lemma_pair_has(subject(e), subject(e), var);
    if var_class(sets, subject(e)) is Some {
        assert(is_current(sets, var_class(sets, subject(e))->0));
        assert(joined(sets, Term::Variable(e.var), e.var_id, Term::Variable(b.var), b.var_id));
    }
    assert(same_class(sets, e.var, b.var, b.var_id));
    assert(e.term == b.term);
}

/// Nothing that has come to the class of an object stands in the way of a binding that may
/// follow.
proof fn lemma_no_bar(t: Typing, sets: Seq<Class>, done: Seq<Binding>, b: Binding, y: (Variable, usize))
    requires
        arises(t, sets),
        may_follow(t, sets, done, b),
        !is_taken(sets, done, subject(b)),
    ensures
        !(comes_off(sets, done, b.term->Object_0, y) && class_members(sets, subject(b)).contains(y)),
        !(comes_in(sets, done, b.term->Object_0, y) && kept_off(sets, subject(b), y)),
{
    let var = subject(b);
    let o = b.term->Object_0;
    lemma_found_class(sets, var);
    lemma_found_object(sets, o);
    let members = class_members(sets, var);
    lemma_pair_has(var, var, y);
    lemma_pair_has(var, var, var);
    assert(members.contains(var));
    let j = object_class(sets, o);
    if var_class(sets, var) is Some {
        assert(is_current(sets, var_class(sets, var)->0));
    }
    if comes_off(sets, done, o, y) && members.contains(y) {
        if j is Some && sets[j->0].others.contains(y) {
            lemma_meet_at(sets[j->0].others, members, y);
            assert(pinned_apart(sets, j->0, var, o));
        } else {
            let d = choose|d: int|
                0 <= d < done.len() && (#[trigger] done[d]).term == Term::Object(o) && var_class(sets, subject(done[d])) is Some
                    && sets[var_class(sets, subject(done[d]))->0].others.contains(y);
            let e = done[d];
            lemma_untaken(sets, done, d, var);
            let i = var_class(sets, subject(e))->0;
            lemma_found_class(sets, subject(e));
            assert(kept_off(sets, subject(e), y));
            assert(keeps_off(sets, i, y));
            assert(var_class(sets, var) is Some);
            lemma_meet_at(sets[i].others, members, y);
            assert(classes_apart(sets, e.var, b.var, b.var_id));
        }
        assert(false);
    }
    if comes_in(sets, done, o, y) && kept_off(sets, var, y) {
        let i = var_class(sets, var)->0;
        assert(keeps_off(sets, i, y));
        let k = var_class(sets, y)->0;
        if j is Some && sets[j->0].members.contains(y) {
            assert(is_current(sets, j->0));
            assert(k == j->0);
            assert(pinned_apart(sets, j->0, var, o));
        } else {
            let d = choose|d: int|
                0 <= d < done.len() && (#[trigger] done[d]).term == Term::Object(o) && class_members(sets, subject(done[d])).contains(y);
            let e = done[d];
            lemma_untaken(sets, done, d, var);
            lemma_found_class(sets, subject(e));
            lemma_pair_has(subject(e), subject(e), y);
            if var_class(sets, subject(e)) is Some {
                assert(is_current(sets, var_class(sets, subject(e))->0));
            }
            assert(var_class(sets, subject(e)) == Some(k));
            lemma_meet_at(sets[i].others, sets[k].members, y);
            assert(classes_apart(sets, e.var, b.var, b.var_id));
        }
        assert(false);
    }
}

/// A variable that is not taken is not of one class with what a binding is of.
proof fn lemma_untaken(sets: Seq<Class>, done: Seq<Binding>, d: int, var: (Variable, usize))
    requires
        0 <= d < done.len(),
        done[d].var_id == var.1,
        !is_taken(sets, done, var),
    ensures
        !same_class(sets, done[d].var, var.0, var.1),
{
    let e = subject(done[d]);
    lemma_found_class(sets, e);
    lemma_found_class(sets, var);
    lemma_pair_has(e, e, e);
    if same_class(sets, done[d].var, var.0, var.1) {
        assert(class_members(sets, e).contains(var));
    }
}

/// A binding that may follow others is accepted after them.
proof fn lemma_follows(t: Typing, sets: Seq<Class>, now: Seq<Class>, done: Seq<Binding>, b: Binding)
    requires
        arises(t, sets),
        arises(t, now),
        bound_all(t, sets, done) == Some(now),
        tracks(sets, now, done),
        may_follow(t, sets, done, b),
    ensures
        bound(t, now, b) is Some,
{
    let var = subject(b);
    let o = b.term->Object_0;
    lemma_found_class(now, var);
    lemma_found_object(now, o);
    lemma_found_class(sets, var);
    if is_taken(sets, done, var) {
        lemma_taken(t, sets, now, done, b);
    } else {
        assert(is_same_class(sets, now, var));
        let i = var_class(now, var);
        let j = object_class(now, o);
        lemma_pair_has(var, var, var);
        if j is Some {
            assert(now[j->0].ty == t.object_ty(o));
            if i is None {
                lemma_no_bar(t, sets, done, b, var);
            } else {
                let a = now[i->0];
                let c = now[j->0];
                if meet_in(c.members, a.others) {
                    let m = choose|m: int| 0 <= m < c.members.len() && a.others.contains(#[trigger] c.members[m]);
                    let y = c.members[m];
                    assert(c.members.contains(y));
                    lemma_no_bar(t, sets, done, b, y);
                    assert(kept_off(sets, var, y));
                    assert(false);
                }
                if meet_in(c.others, a.members) {
                    let m = choose|m: int| 0 <= m < c.others.len() && a.members.contains(#[trigger] c.others[m]);
                    let y = c.others[m];
                    assert(c.others.contains(y));
                    lemma_no_bar(t, sets, done, b, y);
                    assert(false);
                }
            }
        }
    }
}

proof fn lemma_tracks_more(sets: Seq<Class>, done: Seq<Binding>, b: Binding)
    ensures
        forall|x: (Variable, usize)| #[trigger] is_taken(sets, done, x) ==> is_taken(sets, done.push(b), x),
        forall|x: (Variable, usize)| #[trigger] class_members(sets, subject(b)).contains(x) ==> is_taken(sets, done.push(b), x),
        forall|o: Object, y: (Variable, usize)| #[trigger] comes_in(sets, done, o, y) ==> comes_in(sets, done.push(b), o, y),
        forall|o: Object, y: (Variable, usize)| #[trigger] comes_off(sets, done, o, y) ==> comes_off(sets, done.push(b), o, y),
{
    let all = done.push(b);
    assert(all[done.len() as int] == b);
    assert forall|d: int| 0 <= d < done.len() implies #[trigger] all[d] == done[d] by {}
    assert forall|x: (Variable, usize)| #[trigger] is_taken(sets, done, x) implies is_taken(sets, all, x) by {
        let d = choose|d: int| 0 <= d < done.len() && class_members(sets, subject(#[trigger] done[d])).contains(x);
        assert(class_members(sets, subject(all[d])).contains(x));
    }
    assert forall|x: (Variable, usize)| #[trigger] class_members(sets, subject(b)).contains(x) implies is_taken(sets, all, x) by {
        assert(class_members(sets, subject(all[done.len() as int])).contains(x));
    }
    assert forall|o: Object, y: (Variable, usize)| #[trigger] comes_in(sets, done, o, y) implies comes_in(sets, all, o, y) by {
        if !(object_class(sets, o) is Some && sets[object_class(sets, o)->0].members.contains(y)) {
            let d = choose|d: int|
                0 <= d < done.len() && (#[trigger] done[d]).term == Term::Object(o) && class_members(sets, subject(done[d])).contains(y);
            assert(all[d].term == Term::Object(o));
        }
    }
    assert forall|o: Object, y: (Variable, usize)| #[trigger] comes_off(sets, done, o, y) implies comes_off(sets, all, o, y) by {
        if !(object_class(sets, o) is Some && sets[object_class(sets, o)->0].others.contains(y)) {
            let d = choose|d: int|
                0 <= d < done.len() && (#[trigger] done[d]).term == Term::Object(o) && var_class(sets, subject(done[d])) is Some
                    && sets[var_class(sets, subject(done[d]))->0].others.contains(y);
            assert(all[d].term == Term::Object(o));
        }
    }
}

/// What a variable's class and its object's bring to the class that equates them.
proof fn lemma_brought(t: Typing, sets: Seq<Class>, now: Seq<Class>, done: Seq<Binding>, b: Binding, c: Class, y: (Variable, usize))
    requires
        arises(t, sets),
        arises(t, now),
        bound_all(t, sets, done) == Some(now),
        tracks(sets, now, done),
        may_follow(t, sets, done, b),
        equated(t, now, b) == Some(c),
    ensures
        c.members.contains(y) ==> comes_in(sets, done.push(b), b.term->Object_0, y),
        c.others.contains(y) ==> comes_off(sets, done.push(b), b.term->Object_0, y),
{
    let var = subject(b);
    let o = b.term->Object_0;
    let all = done.push(b);
    lemma_pinned_content(t, now, b, c, o);
    lemma_tracks_more(sets, done, b);
    assert(all[done.len() as int] == b);
    if is_taken(sets, done, var) {
        lemma_taken(t, sets, now, done, b);
    } else {
        assert(is_same_class(sets, now, var));
    }
    let j = object_class(now, o);
    if c.members.contains(y) {
        if j is Some && now[j->0].members.contains(y) {
            assert(comes_in(sets, done, o, y));
        } else {
            assert(class_members(sets, var).contains(y));
            assert(all[done.len() as int].term == Term::Object(o));
        }
    }
    if c.others.contains(y) {
        if j is Some && now[j->0].others.contains(y) {
            assert(comes_off(sets, done, o, y));
        } else {
            assert(all[done.len() as int].term == Term::Object(o));
        }
    }
}

proof fn lemma_tracks_on(t: Typing, sets: Seq<Class>, now: Seq<Class>, done: Seq<Binding>, b: Binding, after: Seq<Class>)
    requires
        arises(t, sets),
        arises(t, now),
        bound_all(t, sets, done) == Some(now),
        tracks(sets, now, done),
        may_follow(t, sets, done, b),
        bound(t, now, b) == Some(after),
    ensures
        tracks(sets, after, done.push(b)),
{
    let all = done.push(b);
    let o = b.term->Object_0;
    let c = equated(t, now, b)->0;
    lemma_front(c, now);
    lemma_pinned_content(t, now, b, c, o);
    lemma_tracks_more(sets, done, b);
    assert(after[0] == c);
    assert forall|k: int| 0 <= k < now.len() implies #[trigger] after[k + 1] == now[k] by {}
    assert forall|x: (Variable, usize)| #![trigger var_class(after, x)] is_unbound(sets, x) && !is_taken(sets, all, x) implies is_same_class(
        sets,
        after,
        x,
    ) by {
        assert(!is_taken(sets, done, x));
        lemma_found_class(now, x);
        assert(var_class(now, x) is Some || var_class(now, x) is None);
        assert(is_same_class(sets, now, x));
        if c.members.contains(x) {
            lemma_brought(t, sets, now, done, b, c, x);
            if object_class(sets, o) is Some && sets[object_class(sets, o)->0].members.contains(x) {
                lemma_found_object(sets, o);
                assert(is_current(sets, object_class(sets, o)->0));
                assert(false);
            }
            let d = choose|d: int| 0 <= d < all.len() && (#[trigger] all[d]).term == Term::Object(o) && class_members(sets, subject(all[d])).contains(x);
            assert(class_members(sets, subject(all[d])).contains(x));
            assert(is_taken(sets, all, x));
        }
    }
    assert forall|p: Object, y: (Variable, usize)|
        object_class(after, p) is Some && #[trigger] after[object_class(after, p)->0].members.contains(y) implies comes_in(sets, all, p, y) by {
        if p == o {
            lemma_brought(t, sets, now, done, b, c, y);
        } else {
            lemma_found_object(now, p);
            assert(now[object_class(now, p)->0].members.contains(y));
            assert(comes_in(sets, done, p, y));
        }
    }
    assert forall|p: Object, y: (Variable, usize)|
        object_class(after, p) is Some && #[trigger] after[object_class(after, p)->0].others.contains(y) implies comes_off(sets, all, p, y) by {
        if p == o {
            lemma_brought(t, sets, now, done, b, c, y);
        } else {
            lemma_found_object(now, p);
            assert(now[object_class(now, p)->0].others.contains(y));
            assert(comes_off(sets, done, p, y));
        }
    }
}

/// Whether a variable and an object stand at one of the first `n` places of two lists.
spec fn stands(terms: Seq<Term>, objs: Seq<Term>, n: nat, v: Variable, o: Object) -> bool {
    exists|q: int| 0 <= q < n && (#[trigger] terms[q]) == Term::Variable(v) && objs[q] == Term::Object(o)
}

/// Whether each binding of a list equates an unbound variable with an object at its place.
spec fn are_placed(sets: Seq<Class>, terms: Seq<Term>, id: usize, objs: Seq<Term>, n: nat, bs: Seq<Binding>) -> bool {
    forall|d: int|
        0 <= d < bs.len() ==> {
            &&& (#[trigger] bs[d]).equality
            &&& bs[d].var_id == id
            &&& bs[d].term is Object
            &&& is_unbound(sets, subject(bs[d]))
            &&& stands(terms, objs, n, bs[d].var, bs[d].term->Object_0)
        }
}

/// Whether each variable has been seen with an object at its place.
spec fn are_seen(terms: Seq<Term>, objs: Seq<Term>, n: nat, seen: Seq<(Variable, Object)>) -> bool {
    forall|k: int| 0 <= k < seen.len() ==> stands(terms, objs, n, (#[trigger] seen[k]).0, seen[k].1)
}

proof fn lemma_stands_on(terms: Seq<Term>, objs: Seq<Term>, n: nat, v: Variable, o: Object)
    requires
        stands(terms, objs, n, v, o),
    ensures
        stands(terms, objs, n + 1, v, o),
{
    let q = choose|q: int| 0 <= q < n && (#[trigger] terms[q]) == Term::Variable(v) && objs[q] == Term::Object(o);
    assert(terms[q] == Term::Variable(v));
}

/// The first `n` terms of an atom, where its pattern matches, can be matched, and the
/// bindings that this takes are accepted.
proof fn lemma_matched(t: Typing, sets: Seq<Class>, terms: Seq<Term>, id: usize, objs: Seq<Term>, n: nat)
    requires
        is_transitive(t),
        arises(t, sets),
        ground_matches(t, sets, terms, id, objs),
        n <= terms.len(),
    ensures
        ({
            let m = match_ground(t, sets, terms, id, objs, n);
            let now = bound_all(t, sets, m.mgu);
            &&& m.ok
            &&& now is Some
            &&& arises(t, now->0)
            &&& tracks(sets, now->0, m.mgu)
            &&& are_placed(sets, terms, id, objs, n, m.mgu)
            &&& are_seen(terms, objs, n, m.seen)
        }),
    decreases n,
{
    if n == 0 {
        let now = bound_all(t, sets, Seq::<Binding>::empty());
        assert(now == Some(sets));
        assert forall|o: Object, y: (Variable, usize)|
            object_class(sets, o) is Some && #[trigger] sets[object_class(sets, o)->0].members.contains(y) implies comes_in(sets, seq![], o, y) by {}
        assert forall|o: Object, y: (Variable, usize)|
            object_class(sets, o) is Some && #[trigger] sets[object_class(sets, o)->0].others.contains(y) implies comes_off(sets, seq![], o, y) by {}
        assert(tracks(sets, sets, seq![]));
    } else {
        let p = (n - 1) as nat;
        lemma_matched(t, sets, terms, id, objs, p);
        let m = match_ground(t, sets, terms, id, objs, p);
        let r = match_ground(t, sets, terms, id, objs, n);
        let now = bound_all(t, sets, m.mgu)->0;
        let term = terms[p as int];
        assert(objs[p as int] is Object);
        let o = objs[p as int]->Object_0;
        assert(fits_term(t, sets, term, id, o));
        assert forall|v: Variable, w: Object| #[trigger] stands(terms, objs, p, v, w) implies stands(terms, objs, n, v, w) by {
            lemma_stands_on(terms, objs, p, v, w);
        }
        match term {
            Term::Object(_) => {},
            Term::Variable(v) => {
                assert(terms[p as int] == Term::Variable(v) && objs[p as int] == Term::Object(o));
                assert(stands(terms, objs, n, v, o));
                lemma_seen_at(m.seen, v);
                if seen_object(m.seen, v) is Some {
                    let w = seen_object(m.seen, v)->0;
                    let k = choose|k: int| 0 <= k < m.seen.len() && #[trigger] m.seen[k] == (v, w);
                    assert(stands(terms, objs, p, m.seen[k].0, m.seen[k].1));
                    let q = choose|q: int| 0 <= q < p && (#[trigger] terms[q]) == Term::Variable(v) && objs[q] == Term::Object(w);
                    assert(fits_pair(sets, terms[q], terms[p as int], id, objs[q]->Object_0, objs[p as int]->Object_0));
                    assert(fits_term(t, sets, terms[q], id, objs[q]->Object_0));
                    assert(w == o);
                } else if is_unbound(sets, (v, id)) {
                    let b = Binding { var: v, var_id: id, term: Term::Object(o), term_id: 0, equality: true };
                    lemma_found_class(sets, (v, id));
                    assert(is_typed(t, sets, v, id, o));
                    assert(resolved(sets, term, id) == term);
                    assert forall|d: int| 0 <= d < m.mgu.len() implies fits_pair(
                        sets,
                        Term::Variable((#[trigger] m.mgu[d]).var),
                        Term::Variable(v),
                        id,
                        m.mgu[d].term->Object_0,
                        o,
                    ) by {
                        let e = m.mgu[d];
                        assert(stands(terms, objs, p, e.var, e.term->Object_0));
                        let q = choose|q: int|
                            0 <= q < p && (#[trigger] terms[q]) == Term::Variable(e.var) && objs[q] == Term::Object(e.term->Object_0);
                        assert(fits_pair(sets, terms[q], terms[p as int], id, objs[q]->Object_0, objs[p as int]->Object_0));
                    }
                    assert(may_follow(t, sets, m.mgu, b));
                    lemma_follows(t, sets, now, m.mgu, b);
                    let after = bound(t, now, b)->0;
                    lemma_tracks_on(t, sets, now, m.mgu, b, after);
                    binding_keeps_arising(t, now, b, after);
                    assert(r.mgu == m.mgu.push(b));
                    assert(r.mgu.drop_last() =~= m.mgu);
                    assert forall|d: int| 0 <= d < r.mgu.len() implies {
                        &&& (#[trigger] r.mgu[d]).equality
                        &&& r.mgu[d].var_id == id
                        &&& r.mgu[d].term is Object
                        &&& is_unbound(sets, subject(r.mgu[d]))
                        &&& stands(terms, objs, n, r.mgu[d].var, r.mgu[d].term->Object_0)
                    } by {
                        if d < p && d < m.mgu.len() {
                            assert(r.mgu[d] == m.mgu[d]);
                        }
                    }
                }
            },
        }
        assert(r.ok);
        assert(are_seen(terms, objs, n, r.seen));
        assert(are_placed(sets, terms, id, objs, n, r.mgu));
    }
}

/// A pattern accepts exactly the ground atoms that its atom unifies with: for classes that
/// arise from bindings, and types whose order is transitive, the resolved terms of an atom
/// match the terms of a ground atom with its predicate where, and only where, the two
/// unify.
pub proof fn matching_is_unifying(t: Typing, sets: Seq<Class>, a: AtomView, id: usize, g: AtomView, gid: usize)
    requires
        is_transitive(t),
        arises(t, sets),
        g.ground(),
        a.predicate == g.predicate,
    ensures
        ground_matches(t, sets, a.terms, id, g.terms) <==> atoms_unify(t, sets, seq![], a, id, g, gid),
{
    if atoms_unify(t, sets, seq![], a, id, g, gid) {
        lemma_unified_matches(t, sets, a, id, g, gid);
    }
    if ground_matches(t, sets, a.terms, id, g.terms) {
        let n = a.terms.len();
        if a.ground() {
            assert forall|i: int| 0 <= i < n implies a.terms[i] == g.terms[i] by {
                assert(a.terms[i] is Object && g.terms[i] is Object);
                assert(fits_term(t, sets, a.terms[i], id, g.terms[i]->Object_0));
            }
            assert(a.terms =~= g.terms);
        } else {
            lemma_matched(t, sets, a.terms, id, g.terms, n);
            let u = unifier(t, sets, a, id, g, gid);
            assert(seq![] + u =~= u);
        }
    }
}

} // verus!
