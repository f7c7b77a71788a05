//! What binding constraints mean, and what adding and unifying keep of it.
use vstd::prelude::*;

use crate::bindings::{
    atoms_unify, bound, bound_all, class_members, classes_apart, equated, fits_pair, fits_term, fronted, ground_matches, is_excluded,
    kept_from_term, kept_from_var, lemma_found_class, lemma_found_object, made, match_ground, match_lifted, meet_in, pinned_apart, resolved,
    same_class, seen_object, stacked, stacked_new, term_class, unifier, var_class, Binding, Class,
};
use crate::formula::AtomView;
use crate::terms::{Object, Term, Variable};
use crate::typing::Typing;

verus! {

/// The object that a term stands for when `s` says what the variables of each
/// step stand for.
pub open spec fn value(s: spec_fn(Variable, usize) -> Object, term: Term, id: usize) -> Object {
    match term {
        Term::Object(o) => o,
        Term::Variable(v) => s(v, id),
    }
}

/// Whether the members of a class all stand for `o`, its constant is `o` if it
/// has one, and the variables it is kept from stand for something else.
pub open spec fn takes(c: Class, s: spec_fn(Variable, usize) -> Object, o: Object) -> bool {
    &&& c.constant is Some ==> c.constant->0 == o
    &&& forall|m: (Variable, usize)| #[trigger] c.members.contains(m) ==> s(m.0, m.1) == o
    &&& forall|m: (Variable, usize)| #[trigger] c.others.contains(m) ==> s(m.0, m.1) != o
}

/// Whether every class takes some object.
pub open spec fn admits(sets: Seq<Class>, s: spec_fn(Variable, usize) -> Object) -> bool {
    forall|i: int| 0 <= i < sets.len() ==> admits_class(#[trigger] sets[i], s)
}

pub open spec fn admits_class(c: Class, s: spec_fn(Variable, usize) -> Object) -> bool {
    exists|o: Object| #[trigger] takes(c, s, o)
}

/// Whether a binding holds.
pub open spec fn meets(s: spec_fn(Variable, usize) -> Object, b: Binding) -> bool {
    b.equality == (s(b.var, b.var_id) == value(s, b.term, b.term_id))
}

pub open spec fn meets_all(s: spec_fn(Variable, usize) -> Object, bs: Seq<Binding>) -> bool {
    forall|i: int| 0 <= i < bs.len() ==> meets(s, #[trigger] bs[i])
}

/// Whether a class speaks of some value: it has a constant or a member.
pub open spec fn anchored(c: Class) -> bool {
    c.constant is Some || c.members.len() > 0
}

/// Whether the type of a class is that of its constant, or of some member.
pub open spec fn typed_class(t: Typing, c: Class) -> bool {
    match c.constant {
        Some(o) => c.ty == t.object_ty(o),
        None => exists|m: (Variable, usize)| #[trigger] c.members.contains(m) && c.ty == t.var_ty(m.0, m.1),
    }
}

/// Classes that arise from bindings.
pub open spec fn sound(t: Typing, sets: Seq<Class>) -> bool {
    forall|i: int| 0 <= i < sets.len() ==> anchored(#[trigger] sets[i]) && typed_class(t, sets[i])
}

/// Whether every variable stands for an object of its type.
pub open spec fn well_typed(t: Typing, s: spec_fn(Variable, usize) -> Object) -> bool {
    forall|v: Variable, id: usize| #[trigger] t.below(t.object_ty(s(v, id)), t.var_ty(v, id))
}

/// Whether two types with a common subtype are always comparable.
pub open spec fn is_hierarchy(t: Typing) -> bool {
    forall|x: crate::types::Type, a: crate::types::Type, b: crate::types::Type| #[trigger]
        t.below(x, a) && #[trigger] t.below(x, b) ==> t.meet(a, b) is Some
}

pub proof fn lemma_cons_has(x: (Variable, usize), s: Seq<(Variable, usize)>, m: (Variable, usize))
    ensures
        (seq![x] + s).contains(m) <==> m == x || s.contains(m),
{
    let a = seq![x] + s;
    if s.contains(m) {
        let k = choose|k: int| 0 <= k < s.len() && s[k] == m;
        assert(a[k + 1] == m);
    }
    if m == x {
        assert(a[0] == m);
    }
    if a.contains(m) {
        let k = choose|k: int| 0 <= k < a.len() && a[k] == m;
        if k > 0 {
            assert(s[k - 1] == m);
        }
    }
}

proof fn lemma_head_has(s: Seq<(Variable, usize)>, m: (Variable, usize))
    requires
        s.len() > 0,
    ensures
        s.contains(m) <==> m == s[0] || s.drop_first().contains(m),
{
    assert(s =~= seq![s[0]] + s.drop_first());
    lemma_cons_has(s[0], s.drop_first(), m);
}

pub proof fn lemma_stacked(front: Seq<(Variable, usize)>, back: Seq<(Variable, usize)>, m: (Variable, usize))
    ensures
        stacked(front, back).contains(m) <==> front.contains(m) || back.contains(m),
    decreases front.len(),
{
    if front.len() > 0 {
        lemma_head_has(front, m);
        lemma_cons_has(front[0], back, m);
        lemma_stacked(front.drop_first(), seq![front[0]] + back, m);
    }
}

pub proof fn lemma_stacked_new(front: Seq<(Variable, usize)>, back: Seq<(Variable, usize)>, known: Seq<(Variable, usize)>, m: (Variable, usize))
    ensures
        stacked_new(front, back, known).contains(m) <==> (front.contains(m) && !known.contains(m)) || back.contains(m),
    decreases front.len(),
{
    if front.len() > 0 {
        lemma_head_has(front, m);
        lemma_cons_has(front[0], back, m);
        if known.contains(front[0]) {
            lemma_stacked_new(front.drop_first(), back, known, m);
        } else {
            lemma_stacked_new(front.drop_first(), seq![front[0]] + back, known, m);
        }
    }
}

proof fn lemma_merged_has(a: Class, b: Class, m: (Variable, usize))
    ensures
        stacked(b.members, a.members).contains(m) <==> a.members.contains(m) || b.members.contains(m),
        stacked_new(b.others, a.others, a.others).contains(m) <==> a.others.contains(m) || b.others.contains(m),
{
    lemma_stacked(b.members, a.members, m);
    lemma_stacked_new(b.others, a.others, a.others, m);
}

pub proof fn lemma_pair_has(x: (Variable, usize), y: (Variable, usize), m: (Variable, usize))
    ensures
        seq![x, y].contains(m) <==> m == x || m == y,
        seq![x].contains(m) <==> m == x,
{
    let s = seq![x, y];
    assert(s[0] == x);
    assert(s[1] == y);
    let u = seq![x];
    assert(u[0] == x);
}

/// The class of a term holds it: its members or its constant stand for what the
/// term stands for.
proof fn lemma_term_value(sets: Seq<Class>, s: spec_fn(Variable, usize) -> Object, term: Term, id: usize, j: int, o: Object)
    requires
        term_class(sets, term, id) == Some(j),
        takes(sets[j], s, o),
    ensures
        0 <= j < sets.len(),
        value(s, term, id) == o,
{
    match term {
        Term::Object(p) => {
            lemma_found_object(sets, p);
        },
        Term::Variable(v) => {
            lemma_found_class(sets, (v, id));
            assert(sets[j].members.contains((v, id)));
        },
    }
}

/// What the class put in front by an equality says beyond the classes it comes
/// from is the equality.
proof fn lemma_equated(t: Typing, sets: Seq<Class>, b: Binding, c: Class, s: spec_fn(Variable, usize) -> Object)
    requires
        b.equality,
        equated(t, sets, b) == Some(c),
        admits(sets, s),
        forall|i: int| 0 <= i < sets.len() ==> anchored(#[trigger] sets[i]),
    ensures
        anchored(c),
        admits_class(c, s) <==> meets(s, b),
{
    let var = (b.var, b.var_id);
    let x = s(b.var, b.var_id);
    let y = value(s, b.term, b.term_id);
    lemma_found_class(sets, var);
    match b.term {
        Term::Object(p) => {
            lemma_found_object(sets, p);
        },
        Term::Variable(v) => {
            lemma_found_class(sets, (v, b.term_id));
        },
    }
    match (var_class(sets, var), term_class(sets, b.term, b.term_id)) {
        (None, None) => {
            match b.term {
                Term::Object(p) => {
                    lemma_pair_has(var, var, var);
                    assert(c.members.contains(var));
                    if x == y {
                        assert forall|m: (Variable, usize)| #[trigger] c.members.contains(m) implies s(m.0, m.1) == y by {
                            lemma_pair_has(var, var, m);
                        }
                        assert(takes(c, s, y));
                    }
                    if admits_class(c, s) {
                        let o = choose|o: Object| #[trigger] takes(c, s, o);
                        assert(s(var.0, var.1) == o);
                    }
                },
                Term::Variable(v) => {
                    let other = (v, b.term_id);
                    lemma_pair_has(other, var, var);
                    lemma_pair_has(other, var, other);
                    assert(c.members.contains(var) && c.members.contains(other));
                    if x == y {
                        assert forall|m: (Variable, usize)| #[trigger] c.members.contains(m) implies s(m.0, m.1) == y by {
                            lemma_pair_has(other, var, m);
                        }
                        assert(takes(c, s, y));
                    }
                    if admits_class(c, s) {
                        let o = choose|o: Object| #[trigger] takes(c, s, o);
                        assert(s(var.0, var.1) == o && s(other.0, other.1) == o);
                    }
                },
            }
        },
        (Some(i), Some(j)) => {
            assert(admits_class(sets[i], s) && admits_class(sets[j], s));
            let o1 = choose|o: Object| #[trigger] takes(sets[i], s, o);
            let o2 = choose|o: Object| #[trigger] takes(sets[j], s, o);
            assert(sets[i].members.contains(var));
            lemma_term_value(sets, s, b.term, b.term_id, j, o2);
            if i == j {
                assert(x == o1 && y == o2);
                lemma_term_value(sets, s, b.term, b.term_id, j, o1);
            } else {
                let a = sets[i];
                let d = sets[j];
                assert forall|m: (Variable, usize)| #[trigger] c.members.contains(m) <==> a.members.contains(m) || d.members.contains(m) by {
                    lemma_merged_has(a, d, m);
                }
                assert forall|m: (Variable, usize)| #[trigger] c.others.contains(m) <==> a.others.contains(m) || d.others.contains(m) by {
                    lemma_merged_has(a, d, m);
                }
                assert(c.members.contains(var));
                if x == y {
                    assert(takes(c, s, o1));
                }
                if admits_class(c, s) {
                    let o = choose|o: Object| #[trigger] takes(c, s, o);
                    assert(x == o);
                    match b.term {
                        Term::Object(p) => {
                            assert(c.constant == Some(p));
                        },
                        Term::Variable(v) => {
                            assert(c.members.contains((v, b.term_id)));
                        },
                    }
                }
            }
        },
        (None, Some(j)) => {
            assert(admits_class(sets[j], s));
            let o2 = choose|o: Object| #[trigger] takes(sets[j], s, o);
            lemma_term_value(sets, s, b.term, b.term_id, j, o2);
            assert forall|m: (Variable, usize)| #[trigger] c.members.contains(m) <==> m == var || sets[j].members.contains(m) by {
                lemma_cons_has(var, sets[j].members, m);
            }
            if x == y {
                assert(takes(c, s, o2));
            }
            if admits_class(c, s) {
                let o = choose|o: Object| #[trigger] takes(c, s, o);
                assert(c.members.contains(var));
                match b.term {
                    Term::Object(p) => {},
                    Term::Variable(v) => {
                        assert(sets[j].members.contains((v, b.term_id)));
                        assert(c.members.contains((v, b.term_id)));
                    },
                }
            }
        },
        (Some(i), None) => {
            assert(admits_class(sets[i], s));
            let o1 = choose|o: Object| #[trigger] takes(sets[i], s, o);
            assert(sets[i].members.contains(var));
            match b.term {
                Term::Object(p) => {
                    assert(c.members == sets[i].members && c.others == sets[i].others);
                    assert(c.members.contains(var));
                    if x == y {
                        assert(takes(c, s, o1));
                    }
                    if admits_class(c, s) {
                        let o = choose|o: Object| #[trigger] takes(c, s, o);
                    }
                },
                Term::Variable(v) => {
                    let other = (v, b.term_id);
                    assert forall|m: (Variable, usize)| #[trigger] c.members.contains(m) <==> m == other || sets[i].members.contains(m) by {
                        lemma_cons_has(other, sets[i].members, m);
                    }
                    if x == y {
                        assert(takes(c, s, o1));
                    }
                    if admits_class(c, s) {
                        let o = choose|o: Object| #[trigger] takes(c, s, o);
                        assert(c.members.contains(other) && c.members.contains(var));
                    }
                },
            }
        },
    }
}

proof fn lemma_admits_front(c: Class, sets: Seq<Class>, s: spec_fn(Variable, usize) -> Object)
    ensures
        admits(seq![c] + sets, s) <==> admits_class(c, s) && admits(sets, s),
{
    let all = seq![c] + sets;
    if admits(all, s) {
        assert(admits_class(all[0], s));
        assert forall|i: int| 0 <= i < sets.len() implies admits_class(#[trigger] sets[i], s) by {
            assert(all[i + 1] == sets[i]);
        }
    }
    if admits_class(c, s) && admits(sets, s) {
        assert forall|i: int| 0 <= i < all.len() implies admits_class(#[trigger] all[i], s) by {
            if i > 0 {
                assert(all[i] == sets[i - 1]);
            }
        }
    }
}

/// A class kept from one more variable, where it takes an object.
proof fn lemma_without(c: Class, v: Variable, id: usize, s: spec_fn(Variable, usize) -> Object, o: Object)
    requires
        takes(c, s, o),
        anchored(c),
    ensures
        admits_class(c.without(v, id), s) <==> s(v, id) != o,
{
    let d = c.without(v, id);
    assert forall|m: (Variable, usize)| #[trigger] d.others.contains(m) <==> m == (v, id) || c.others.contains(m) by {
        lemma_cons_has((v, id), c.others, m);
    }
    if s(v, id) != o {
        assert(takes(d, s, o));
    }
    if admits_class(d, s) {
        let p = choose|p: Object| #[trigger] takes(d, s, p);
        assert(d.others.contains((v, id)));
        if c.constant is None {
            assert(c.members.contains(c.members[0]));
            assert(d.members.contains(c.members[0]));
        }
    }
}

/// What an inequality puts in front says the inequality and no more.
proof fn lemma_kept(t: Typing, sets: Seq<Class>, b: Binding, s: spec_fn(Variable, usize) -> Object)
    requires
        !b.equality,
        admits(sets, s),
        forall|i: int| 0 <= i < sets.len() ==> anchored(#[trigger] sets[i]),
    ensures
        kept_from_term(t, sets, b) matches Some(c) ==> anchored(c) && (admits_class(c, s) <==> meets(s, b)),
        kept_from_var(t, sets, b) matches Some(c) ==> anchored(c) && (admits_class(c, s) <==> meets(s, b)),
        kept_from_var(t, sets, b) is None ==> meets(s, b),
{
    let var = (b.var, b.var_id);
    let x = s(b.var, b.var_id);
    let y = value(s, b.term, b.term_id);
    lemma_found_class(sets, var);
    match b.term {
        Term::Object(p) => {
            lemma_found_object(sets, p);
        },
        Term::Variable(v) => {
            lemma_found_class(sets, (v, b.term_id));
        },
    }
    match kept_from_term(t, sets, b) {
        Some(c) => {
            match var_class(sets, var) {
                None => {
                    let v = b.term->Variable_0;
                    let other = (v, b.term_id);
                    lemma_pair_has(var, var, var);
                    lemma_pair_has(other, other, other);
                    assert(c.members.contains(var));
                    assert(c.others.contains(other));
                    if x != y {
                        assert forall|m: (Variable, usize)| #[trigger] c.members.contains(m) implies s(m.0, m.1) == x by {
                            lemma_pair_has(var, var, m);
                        }
                        assert forall|m: (Variable, usize)| #[trigger] c.others.contains(m) implies s(m.0, m.1) != x by {
                            lemma_pair_has(other, other, m);
                        }
                        assert(takes(c, s, x));
                    }
                    if admits_class(c, s) {
                        let o = choose|o: Object| #[trigger] takes(c, s, o);
                    }
                },
                Some(i) => {
                    let o = choose|o: Object| #[trigger] takes(sets[i], s, o);
                    assert(admits_class(sets[i], s));
                    assert(sets[i].members.contains(var));
                    lemma_without(sets[i], b.term->Variable_0, b.term_id, s, o);
                },
            }
        },
        None => {},
    }
    match term_class(sets, b.term, b.term_id) {
        None => {
            let c = made(t, b, true)->0;
            lemma_pair_has(var, var, var);
            assert(c.others.contains(var));
            match b.term {
                Term::Object(p) => {
                    if x != y {
                        assert forall|m: (Variable, usize)| #[trigger] c.others.contains(m) implies s(m.0, m.1) != p by {
                            lemma_pair_has(var, var, m);
                        }
                        assert(takes(c, s, p));
                    }
                    if admits_class(c, s) {
                        let o = choose|o: Object| #[trigger] takes(c, s, o);
                    }
                },
                Term::Variable(v) => {
                    let other = (v, b.term_id);
                    lemma_pair_has(other, other, other);
                    assert(c.members.contains(other));
                    if x != y {
                        assert forall|m: (Variable, usize)| #[trigger] c.members.contains(m) implies s(m.0, m.1) == y by {
                            lemma_pair_has(other, other, m);
                        }
                        assert forall|m: (Variable, usize)| #[trigger] c.others.contains(m) implies s(m.0, m.1) != y by {
                            lemma_pair_has(var, var, m);
                        }
                        assert(takes(c, s, y));
                    }
                    if admits_class(c, s) {
                        let o = choose|o: Object| #[trigger] takes(c, s, o);
                    }
                },
            }
        },
        Some(j) => {
            assert(admits_class(sets[j], s));
            let o = choose|o: Object| #[trigger] takes(sets[j], s, o);
            lemma_term_value(sets, s, b.term, b.term_id, j, o);
            lemma_without(sets[j], b.var, b.var_id, s, o);
        },
    }
}

/// Where a binding is added, the classes after it admit exactly what the classes
/// before it admit and the binding holds of.
pub proof fn one_binding_is_exact(t: Typing, sets: Seq<Class>, b: Binding, after: Seq<Class>, s: spec_fn(Variable, usize) -> Object)
    requires
        forall|i: int| 0 <= i < sets.len() ==> anchored(#[trigger] sets[i]),
        bound(t, sets, b) == Some(after),
    ensures
        admits(after, s) <==> admits(sets, s) && meets(s, b),
{
    if b.equality {
        let c = equated(t, sets, b)->0;
        lemma_admits_front(c, sets, s);
        if admits(sets, s) {
            lemma_equated(t, sets, b, c, s);
        }
    } else {
        let one = kept_from_term(t, sets, b);
        let two = kept_from_var(t, sets, b);
        let middle = fronted(one, sets);
        if one is Some {
            lemma_admits_front(one->0, sets, s);
        }
        if two is Some {
            lemma_admits_front(two->0, middle, s);
        }
        if admits(sets, s) {
            lemma_kept(t, sets, b, s);
        }
    }
}

proof fn lemma_in_merged(a: Class, b: Class, m: (Variable, usize))
    requires
        a.members.contains(m) || b.members.contains(m),
    ensures
        stacked(b.members, a.members).contains(m),
{
    lemma_merged_has(a, b, m);
}

/// A class made or merged is again of the type of its constant or of a member.
proof fn lemma_equated_sound(t: Typing, sets: Seq<Class>, b: Binding, c: Class)
    requires
        b.equality,
        equated(t, sets, b) == Some(c),
        sound(t, sets),
    ensures
        anchored(c) && typed_class(t, c),
{
    let var = (b.var, b.var_id);
    lemma_found_class(sets, var);
    match b.term {
        Term::Object(p) => {
            lemma_found_object(sets, p);
        },
        Term::Variable(v) => {
            lemma_found_class(sets, (v, b.term_id));
        },
    }
    match (var_class(sets, var), term_class(sets, b.term, b.term_id)) {
        (None, None) => {
            match b.term {
                Term::Object(p) => {},
                Term::Variable(v) => {
                    let other = (v, b.term_id);
                    lemma_pair_has(other, var, var);
                    lemma_pair_has(other, var, other);
                    assert(c.members.contains(var) && c.members.contains(other));
                },
            }
        },
        (Some(i), Some(j)) => {
            let a = sets[i];
            let d = sets[j];
            if i != j {
                lemma_merged_has(a, d, var);
                assert(c.members.contains(var));
                assert(c.members.len() > 0);
                if a.constant is None && d.constant is None {
                    let m = choose|m: (Variable, usize)| #[trigger] a.members.contains(m) && a.ty == t.var_ty(m.0, m.1);
                    let n = choose|n: (Variable, usize)| #[trigger] d.members.contains(n) && d.ty == t.var_ty(n.0, n.1);
                    lemma_in_merged(a, d, m);
                    lemma_in_merged(a, d, n);
                    assert(c.members.contains(m) && c.members.contains(n));
                }
            }
        },
        (None, Some(j)) => {
            let d = sets[j];
            lemma_cons_has(var, d.members, var);
            assert(c.members.contains(var));
            if d.constant is None {
                let n = choose|n: (Variable, usize)| #[trigger] d.members.contains(n) && d.ty == t.var_ty(n.0, n.1);
                lemma_cons_has(var, d.members, n);
                assert(c.members.contains(n));
            }
        },
        (Some(i), None) => {
            let a = sets[i];
            match b.term {
                Term::Object(p) => {},
                Term::Variable(v) => {
                    let other = (v, b.term_id);
                    lemma_cons_has(other, a.members, other);
                    assert(c.members.contains(other));
                    if a.constant is None {
                        let n = choose|n: (Variable, usize)| #[trigger] a.members.contains(n) && a.ty == t.var_ty(n.0, n.1);
                        lemma_cons_has(other, a.members, n);
                        assert(c.members.contains(n));
                    }
                },
            }
        },
    }
}

proof fn lemma_sound_front(t: Typing, c: Class, sets: Seq<Class>)
    requires
        anchored(c) && typed_class(t, c),
        sound(t, sets),
    ensures
        sound(t, seq![c] + sets),
{
    let all = seq![c] + sets;
    assert forall|i: int| 0 <= i < all.len() implies anchored(#[trigger] all[i]) && typed_class(t, all[i]) by {
        if i > 0 {
            assert(all[i] == sets[i - 1]);
        }
    }
}

proof fn lemma_without_sound(t: Typing, c: Class, v: Variable, id: usize)
    requires
        anchored(c) && typed_class(t, c),
    ensures
        anchored(c.without(v, id)) && typed_class(t, c.without(v, id)),
{
    let d = c.without(v, id);
    if c.constant is None {
        let n = choose|n: (Variable, usize)| #[trigger] c.members.contains(n) && c.ty == t.var_ty(n.0, n.1);
        assert(d.members.contains(n));
    }
}

proof fn lemma_made_sound(t: Typing, b: Binding, reverse: bool)
    requires
        !b.equality,
    ensures
        made(t, b, reverse) matches Some(c) ==> anchored(c) && typed_class(t, c),
{
    let var = (b.var, b.var_id);
    lemma_pair_has(var, var, var);
    match b.term {
        Term::Object(_) => {},
        Term::Variable(v) => {
            let other = (v, b.term_id);
            lemma_pair_has(other, other, other);
            let c = made(t, b, reverse)->0;
            if reverse {
                assert(c.members.contains(other));
            } else {
                assert(c.members.contains(var));
            }
        },
    }
}

/// Adding a binding to classes that arise from bindings gives such classes.
pub proof fn binding_keeps_sound(t: Typing, sets: Seq<Class>, b: Binding, after: Seq<Class>)
    requires
        sound(t, sets),
        bound(t, sets, b) == Some(after),
    ensures
        sound(t, after),
{
    if b.equality {
        let c = equated(t, sets, b)->0;
        lemma_equated_sound(t, sets, b, c);
        lemma_sound_front(t, c, sets);
    } else {
        let var = (b.var, b.var_id);
        lemma_found_class(sets, var);
        match b.term {
            Term::Object(p) => {
                lemma_found_object(sets, p);
            },
            Term::Variable(v) => {
                lemma_found_class(sets, (v, b.term_id));
            },
        }
        lemma_made_sound(t, b, true);
        lemma_made_sound(t, b, false);
        let one = kept_from_term(t, sets, b);
        let two = kept_from_var(t, sets, b);
        let middle = fronted(one, sets);
        if one is Some {
            match var_class(sets, var) {
                None => {},
                Some(i) => {
                    lemma_without_sound(t, sets[i], b.term->Variable_0, b.term_id);
                },
            }
            lemma_sound_front(t, one->0, sets);
        }
        if two is Some {
            match term_class(sets, b.term, b.term_id) {
                None => {},
                Some(j) => {
                    lemma_without_sound(t, sets[j], b.var, b.var_id);
                },
            }
            lemma_sound_front(t, two->0, middle);
        }
    }
}

/// Adding bindings is exact: the classes after a list of bindings arise from
/// bindings again, and admit exactly what the classes before admit and all the
/// bindings hold of.
pub proof fn bindings_are_exact(t: Typing, sets: Seq<Class>, bs: Seq<Binding>, after: Seq<Class>, s: spec_fn(Variable, usize) -> Object)
    requires
        sound(t, sets),
        bound_all(t, sets, bs) == Some(after),
    ensures
        sound(t, after),
        admits(after, s) <==> admits(sets, s) && meets_all(s, bs),
    decreases bs.len(),
{
    if bs.len() > 0 {
        let front = bs.drop_last();
        let mid = bound_all(t, sets, front)->0;
        bindings_are_exact(t, sets, front, mid, s);
        binding_keeps_sound(t, mid, bs.last(), after);
        one_binding_is_exact(t, mid, bs.last(), after, s);
        if meets_all(s, bs) {
            assert forall|i: int| 0 <= i < front.len() implies meets(s, #[trigger] front[i]) by {
                assert(front[i] == bs[i]);
            }
            assert(meets(s, bs[bs.len() - 1]));
        }
        if meets_all(s, front) && meets(s, bs.last()) {
            assert forall|i: int| 0 <= i < bs.len() implies meets(s, #[trigger] bs[i]) by {
                if i < front.len() {
                    assert(front[i] == bs[i]);
                }
            }
        }
    }
}

/// The value that a class takes has the class's type.
proof fn lemma_class_type(t: Typing, c: Class, s: spec_fn(Variable, usize) -> Object, o: Object)
    requires
        typed_class(t, c),
        well_typed(t, s),
        takes(c, s, o),
    ensures
        c.constant is Some ==> c.ty == t.object_ty(o),
        c.constant is None ==> t.below(t.object_ty(o), c.ty),
{
    if c.constant is None {
        let m = choose|m: (Variable, usize)| #[trigger] c.members.contains(m) && c.ty == t.var_ty(m.0, m.1);
        assert(s(m.0, m.1) == o);
        assert(t.below(t.object_ty(s(m.0, m.1)), t.var_ty(m.0, m.1)));
    }
}

/// A binding that is refused holds of nothing that the classes admit, where types
/// form a hierarchy and variables stand for objects of their types.
pub proof fn refused_binding_fails(t: Typing, sets: Seq<Class>, b: Binding, s: spec_fn(Variable, usize) -> Object)
    requires
        is_hierarchy(t),
        sound(t, sets),
        well_typed(t, s),
        admits(sets, s),
        bound(t, sets, b) is None,
    ensures
        !meets(s, b),
{
    let var = (b.var, b.var_id);
    let x = s(b.var, b.var_id);
    let y = value(s, b.term, b.term_id);
    lemma_found_class(sets, var);
    match b.term {
        Term::Object(p) => {
            lemma_found_object(sets, p);
        },
        Term::Variable(v) => {
            lemma_found_class(sets, (v, b.term_id));
            assert(t.below(t.object_ty(s(v, b.term_id)), t.var_ty(v, b.term_id)));
        },
    }
    assert(t.below(t.object_ty(s(b.var, b.var_id)), t.var_ty(b.var, b.var_id)));
    match (var_class(sets, var), term_class(sets, b.term, b.term_id)) {
        (None, None) => {},
        (Some(i), Some(j)) => {
            assert(admits_class(sets[i], s) && admits_class(sets[j], s));
            let o1 = choose|o: Object| #[trigger] takes(sets[i], s, o);
            let o2 = choose|o: Object| #[trigger] takes(sets[j], s, o);
            assert(sets[i].members.contains(var));
            lemma_term_value(sets, s, b.term, b.term_id, j, o2);
            lemma_class_type(t, sets[i], s, o1);
            lemma_class_type(t, sets[j], s, o2);
            if b.equality {
                if x == y {
                    if meet_in(sets[j].members, sets[i].others) {
                        let k = choose|k: int| 0 <= k < sets[j].members.len() && sets[i].others.contains(#[trigger] sets[j].members[k]);
                        let m = sets[j].members[k];
                        assert(sets[j].members.contains(m));
                        assert(s(m.0, m.1) == o2);
                        assert(s(m.0, m.1) != o1);
                    }
                    if meet_in(sets[j].others, sets[i].members) {
                        let k = choose|k: int| 0 <= k < sets[j].others.len() && sets[i].members.contains(#[trigger] sets[j].others[k]);
                        let m = sets[j].others[k];
                        assert(sets[j].others.contains(m));
                        assert(s(m.0, m.1) != o2);
                        assert(s(m.0, m.1) == o1);
                    }
                    assert(sets[i].merged_head(t, sets[j]) is Some);
                }
            } else {
                lemma_term_value(sets, s, b.term, b.term_id, j, o1);
            }
        },
        (None, Some(j)) => {
            assert(admits_class(sets[j], s));
            let o2 = choose|o: Object| #[trigger] takes(sets[j], s, o);
            lemma_term_value(sets, s, b.term, b.term_id, j, o2);
            lemma_class_type(t, sets[j], s, o2);
            if sets[j].others.contains(var) {
                assert(s(var.0, var.1) != o2);
            }
        },
        (Some(i), None) => {
            assert(admits_class(sets[i], s));
            let o1 = choose|o: Object| #[trigger] takes(sets[i], s, o);
            assert(sets[i].members.contains(var));
            lemma_class_type(t, sets[i], s, o1);
            match b.term {
                Term::Object(p) => {},
                Term::Variable(v) => {
                    if sets[i].others.contains((v, b.term_id)) {
                        assert(s(v, b.term_id) != o1);
                    }
                },
            }
        },
    }
}

/// Bindings that are refused do not all hold of anything that the classes admit,
/// where types form a hierarchy and variables stand for objects of their types.
pub proof fn refused_bindings_fail(t: Typing, sets: Seq<Class>, bs: Seq<Binding>, s: spec_fn(Variable, usize) -> Object)
    requires
        is_hierarchy(t),
        sound(t, sets),
        well_typed(t, s),
        admits(sets, s),
        bound_all(t, sets, bs) is None,
    ensures
        !meets_all(s, bs),
    decreases bs.len(),
{
    if bs.len() > 0 {
        let front = bs.drop_last();
        if meets_all(s, bs) {
            assert forall|i: int| 0 <= i < front.len() implies meets(s, #[trigger] front[i]) by {
                assert(front[i] == bs[i]);
            }
            assert(meets(s, bs[bs.len() - 1]));
            match bound_all(t, sets, front) {
                None => {
                    refused_bindings_fail(t, sets, front, s);
                },
                Some(mid) => {
                    bindings_are_exact(t, sets, front, mid, s);
                    refused_binding_fails(t, mid, bs.last(), s);
                },
            }
        }
    }
}

/// A term bound to an object stands for it wherever the classes are admitted.
pub proof fn resolved_is_exact(sets: Seq<Class>, s: spec_fn(Variable, usize) -> Object, term: Term, id: usize)
    requires
        admits(sets, s),
    ensures
        value(s, resolved(sets, term, id), id) == value(s, term, id),
{
    match term {
        Term::Variable(v) => {
            lemma_found_class(sets, (v, id));
            match var_class(sets, (v, id)) {
                Some(i) => {
                    assert(admits_class(sets[i], s));
                    let o = choose|o: Object| #[trigger] takes(sets[i], s, o);
                    assert(sets[i].members.contains((v, id)));
                },
                None => {},
            }
        },
        Term::Object(_) => {},
    }
}

/// Whether the first `n` terms of two lists stand for the same objects.
pub open spec fn equal_upto(s: spec_fn(Variable, usize) -> Object, ts1: Seq<Term>, id1: usize, ts2: Seq<Term>, id2: usize, n: nat) -> bool {
    forall|i: int| 0 <= i < n ==> value(s, #[trigger] ts1[i], id1) == value(s, ts2[i], id2)
}

spec fn seen_hold(s: spec_fn(Variable, usize) -> Object, id: usize, seen: Seq<(Variable, Object)>) -> bool {
    forall|i: int| 0 <= i < seen.len() ==> s((#[trigger] seen[i]).0, id) == seen[i].1
}

proof fn lemma_seen(s: spec_fn(Variable, usize) -> Object, id: usize, seen: Seq<(Variable, Object)>, v: Variable)
    requires
        seen_hold(s, id, seen),
    ensures
        seen_object(seen, v) matches Some(o) ==> s(v, id) == o,
    decreases seen.len(),
{
    if seen.len() > 0 {
        assert(s(seen[0].0, id) == seen[0].1);
        let rest = seen.drop_first();
        assert forall|i: int| 0 <= i < rest.len() implies s((#[trigger] rest[i]).0, id) == rest[i].1 by {
            assert(rest[i] == seen[i + 1]);
        }
        lemma_seen(s, id, rest, v);
    }
}

proof fn lemma_meets_push(s: spec_fn(Variable, usize) -> Object, bs: Seq<Binding>, b: Binding)
    ensures
        meets_all(s, bs.push(b)) <==> meets_all(s, bs) && meets(s, b),
{
    let all = bs.push(b);
    if meets_all(s, all) {
        assert forall|i: int| 0 <= i < bs.len() implies meets(s, #[trigger] bs[i]) by {
            assert(all[i] == bs[i]);
        }
        assert(all[bs.len() as int] == b);
    }
}

proof fn lemma_seen_push(s: spec_fn(Variable, usize) -> Object, id: usize, seen: Seq<(Variable, Object)>, v: Variable, o: Object)
    requires
        seen_hold(s, id, seen),
        s(v, id) == o,
    ensures
        seen_hold(s, id, seen.push((v, o))),
{
    let all = seen.push((v, o));
    assert forall|i: int| 0 <= i < all.len() implies s((#[trigger] all[i]).0, id) == all[i].1 by {
        if i < seen.len() {
            assert(all[i] == seen[i]);
        }
    }
}

/// Matching against objects: where it succeeds and its bindings hold, the terms
/// stand for the objects; and where the terms stand for the objects, it succeeds
/// and its bindings hold.
proof fn lemma_ground(t: Typing, sets: Seq<Class>, terms: Seq<Term>, id: usize, objs: Seq<Term>, s: spec_fn(Variable, usize) -> Object, gid: usize, n: nat)
    requires
        admits(sets, s),
        n <= terms.len(),
        n <= objs.len(),
        forall|i: int| 0 <= i < objs.len() ==> (#[trigger] objs[i]) is Object,
    ensures
        ({
            let m = match_ground(t, sets, terms, id, objs, n);
            &&& m.ok && meets_all(s, m.mgu) ==> equal_upto(s, terms, id, objs, gid, n) && seen_hold(s, id, m.seen)
            &&& well_typed(t, s) && equal_upto(s, terms, id, objs, gid, n) ==> m.ok && meets_all(s, m.mgu) && seen_hold(s, id, m.seen)
        }),
    decreases n,
{
    if n > 0 {
        let k = (n - 1) as nat;
        lemma_ground(t, sets, terms, id, objs, s, gid, k);
        let m = match_ground(t, sets, terms, id, objs, k);
        let r = match_ground(t, sets, terms, id, objs, n);
        let term = terms[n - 1];
        assert(objs[n - 1] is Object);
        let o = objs[n - 1]->Object_0;
        assert(value(s, objs[n - 1], gid) == o);
        resolved_is_exact(sets, s, term, id);
        if m.ok {
            match term {
                Term::Object(p) => {},
                Term::Variable(v) => {
                    let b = Binding { var: v, var_id: id, term: Term::Object(o), term_id: 0, equality: true };
                    lemma_meets_push(s, m.mgu, b);
                    if seen_hold(s, id, m.seen) {
                        lemma_seen(s, id, m.seen, v);
                        if s(v, id) == o {
                            lemma_seen_push(s, id, m.seen, v, o);
                        }
                    }
                    assert(well_typed(t, s) ==> t.below(t.object_ty(s(v, id)), t.var_ty(v, id)));
                },
            }
        }
        if equal_upto(s, terms, id, objs, gid, n) {
            assert(equal_upto(s, terms, id, objs, gid, k));
            assert(value(s, terms[n - 1], id) == value(s, objs[n - 1], gid));
        }
        if r.ok && meets_all(s, r.mgu) {
            assert(m.ok);
            assert(meets_all(s, m.mgu));
            assert(value(s, term, id) == o);
            assert(equal_upto(s, terms, id, objs, gid, n));
        }
    }
}

proof fn lemma_lifted(t: Typing, ts1: Seq<Term>, id1: usize, ts2: Seq<Term>, id2: usize, s: spec_fn(Variable, usize) -> Object, n: nat)
    requires
        n <= ts1.len(),
        n <= ts2.len(),
    ensures
        ({
            let m = match_lifted(t, ts1, id1, ts2, id2, n);
            &&& m.ok && meets_all(s, m.mgu) ==> equal_upto(s, ts1, id1, ts2, id2, n)
            &&& is_hierarchy(t) && well_typed(t, s) && equal_upto(s, ts1, id1, ts2, id2, n) ==> m.ok && meets_all(s, m.mgu)
        }),
    decreases n,
{
    if n > 0 {
        let k = (n - 1) as nat;
        lemma_lifted(t, ts1, id1, ts2, id2, s, k);
        let m = match_lifted(t, ts1, id1, ts2, id2, k);
        let r = match_lifted(t, ts1, id1, ts2, id2, n);
        let t1 = ts1[n - 1];
        let t2 = ts2[n - 1];
        if m.ok {
            match (t1, t2) {
                (Term::Object(_), Term::Object(_)) => {},
                (Term::Object(_), Term::Variable(v2)) => {
                    lemma_meets_push(s, m.mgu, Binding { var: v2, var_id: id2, term: t1, term_id: 0, equality: true });
                    assert(well_typed(t, s) ==> t.below(t.object_ty(s(v2, id2)), t.var_ty(v2, id2)));
                },
                (Term::Variable(v1), Term::Object(_)) => {
                    lemma_meets_push(s, m.mgu, Binding { var: v1, var_id: id1, term: t2, term_id: id2, equality: true });
                    assert(well_typed(t, s) ==> t.below(t.object_ty(s(v1, id1)), t.var_ty(v1, id1)));
                },
                (Term::Variable(v1), Term::Variable(v2)) => {
                    lemma_meets_push(s, m.mgu, Binding { var: v1, var_id: id1, term: t2, term_id: id2, equality: true });
                    assert(well_typed(t, s) ==> t.below(t.object_ty(s(v1, id1)), t.var_ty(v1, id1)));
                    assert(well_typed(t, s) ==> t.below(t.object_ty(s(v2, id2)), t.var_ty(v2, id2)));
                },
            }
        }
        if equal_upto(s, ts1, id1, ts2, id2, n) {
            assert(equal_upto(s, ts1, id1, ts2, id2, k));
            assert(value(s, ts1[n - 1], id1) == value(s, ts2[n - 1], id2));
        }
        if r.ok && meets_all(s, r.mgu) {
            assert(m.ok && meets_all(s, m.mgu));
            assert(equal_upto(s, ts1, id1, ts2, id2, n));
        }
    }
}

/// Whether two atoms say the same thing.
pub open spec fn equal_atoms(s: spec_fn(Variable, usize) -> Object, a1: AtomView, id1: usize, a2: AtomView, id2: usize) -> bool {
    &&& a1.predicate == a2.predicate
    &&& a1.terms.len() == a2.terms.len()
    &&& equal_upto(s, a1.terms, id1, a2.terms, id2, a1.terms.len())
}

proof fn lemma_swap(s: spec_fn(Variable, usize) -> Object, a1: AtomView, id1: usize, a2: AtomView, id2: usize)
    ensures
        equal_atoms(s, a1, id1, a2, id2) == equal_atoms(s, a2, id2, a1, id1),
{
    if equal_atoms(s, a1, id1, a2, id2) {
        assert forall|i: int| 0 <= i < a2.terms.len() implies value(s, #[trigger] a2.terms[i], id2) == value(s, a1.terms[i], id1) by {
            assert(value(s, a1.terms[i], id1) == value(s, a2.terms[i], id2));
        }
    }
    if equal_atoms(s, a2, id2, a1, id1) {
        assert forall|i: int| 0 <= i < a1.terms.len() implies value(s, #[trigger] a1.terms[i], id1) == value(s, a2.terms[i], id2) by {
            assert(value(s, a2.terms[i], id2) == value(s, a1.terms[i], id1));
        }
    }
}

/// Unifying is sound: where two atoms unify, they say the same thing wherever
/// the classes are admitted and the unifier holds.
pub proof fn unifier_unifies(
    t: Typing,
    sets: Seq<Class>,
    a1: AtomView,
    id1: usize,
    a2: AtomView,
    id2: usize,
    s: spec_fn(Variable, usize) -> Object,
)
    requires
        atoms_unify(t, sets, seq![], a1, id1, a2, id2),
        admits(sets, s),
        meets_all(s, unifier(t, sets, a1, id1, a2, id2)),
    ensures
        equal_atoms(s, a1, id1, a2, id2),
{
    let n = a1.terms.len();
    if a1.ground() && a2.ground() {
        assert forall|i: int| 0 <= i < n implies value(s, #[trigger] a1.terms[i], id1) == value(s, a2.terms[i], id2) by {
            assert(a1.terms[i] is Object);
        }
    } else if a1.ground() {
        lemma_ground(t, sets, a2.terms, id2, a1.terms, s, id1, n);
        lemma_swap(s, a1, id1, a2, id2);
    } else if a2.ground() {
        lemma_ground(t, sets, a1.terms, id1, a2.terms, s, id2, n);
    } else {
        lemma_lifted(t, a1.terms, id1, a2.terms, id2, s, n);
    }
}

/// Unifying is most general: where two atoms say the same thing, for variables
/// that stand for objects of their types and classes that are admitted, and types
/// form a hierarchy, the atoms unify and the unifier holds.
pub proof fn unifier_is_most_general(
    t: Typing,
    sets: Seq<Class>,
    a1: AtomView,
    id1: usize,
    a2: AtomView,
    id2: usize,
    s: spec_fn(Variable, usize) -> Object,
)
    requires
        is_hierarchy(t),
        sound(t, sets),
        well_typed(t, s),
        admits(sets, s),
        equal_atoms(s, a1, id1, a2, id2),
    ensures
        atoms_unify(t, sets, seq![], a1, id1, a2, id2),
        meets_all(s, unifier(t, sets, a1, id1, a2, id2)),
{
    let n = a1.terms.len();
    let u = unifier(t, sets, a1, id1, a2, id2);
    if a1.ground() && a2.ground() {
        assert forall|i: int| 0 <= i < n implies a1.terms[i] == a2.terms[i] by {
            assert(a1.terms[i] is Object && a2.terms[i] is Object);
            assert(value(s, a1.terms[i], id1) == value(s, a2.terms[i], id2));
        }
        assert(a1.terms =~= a2.terms);
    } else {
        if a1.ground() {
            lemma_swap(s, a1, id1, a2, id2);
            lemma_ground(t, sets, a2.terms, id2, a1.terms, s, id1, n);
        } else if a2.ground() {
            lemma_ground(t, sets, a1.terms, id1, a2.terms, s, id2, n);
        } else {
            lemma_lifted(t, a1.terms, id1, a2.terms, id2, s, n);
        }
        assert(seq![] + u =~= u);
        if bound_all(t, sets, u) is None {
            refused_bindings_fail(t, sets, u, s);
        }
    }
}

/// The members of the class of a variable stand for what the variable stands for.
proof fn lemma_members(sets: Seq<Class>, s: spec_fn(Variable, usize) -> Object, v: Variable, id: usize, m: (Variable, usize))
    requires
        admits(sets, s),
        class_members(sets, (v, id)).contains(m),
    ensures
        s(m.0, m.1) == s(v, id),
{
    lemma_found_class(sets, (v, id));
    if let Some(k) = var_class(sets, (v, id)) {
        assert(admits_class(sets[k], s));
        let o = choose|o: Object| #[trigger] takes(sets[k], s, o);
        assert(sets[k].members.contains((v, id)));
        assert(sets[k].members.contains(m));
    } else {
        assert(m == (v, id));
    }
}

proof fn lemma_fits_term(t: Typing, sets: Seq<Class>, s: spec_fn(Variable, usize) -> Object, term: Term, id: usize)
    requires
        admits(sets, s),
        sound(t, sets),
        well_typed(t, s),
    ensures
        fits_term(t, sets, term, id, value(s, term, id)),
{
    resolved_is_exact(sets, s, term, id);
    if let Term::Variable(v) = resolved(sets, term, id) {
        let o = s(v, id);
        assert(t.below(t.object_ty(s(v, id)), t.var_ty(v, id)));
        lemma_found_class(sets, (v, id));
        if let Some(k) = var_class(sets, (v, id)) {
            assert(admits_class(sets[k], s));
            assert(typed_class(t, sets[k]));
            let p = choose|p: Object| #[trigger] takes(sets[k], s, p);
            assert(sets[k].members.contains((v, id)));
            if sets[k].constant is None {
                let m = choose|m: (Variable, usize)| #[trigger] sets[k].members.contains(m) && sets[k].ty == t.var_ty(m.0, m.1);
                assert(t.below(t.object_ty(s(m.0, m.1)), t.var_ty(m.0, m.1)));
            }
        }
        if is_excluded(sets, v, id, o) {
            let i = choose|i: int| 0 <= i < sets.len() && #[trigger] pinned_apart(sets, i, (v, id), o);
            let near = class_members(sets, (v, id));
            let k = choose|k: int| 0 <= k < sets[i].others.len() && near.contains(#[trigger] sets[i].others[k]);
            let m = sets[i].others[k];
            lemma_members(sets, s, v, id, m);
            assert(admits_class(sets[i], s));
            let p = choose|p: Object| #[trigger] takes(sets[i], s, p);
            assert(sets[i].others.contains(m));
        }
    }
}

proof fn lemma_fits_pair(t: Typing, sets: Seq<Class>, s: spec_fn(Variable, usize) -> Object, t1: Term, t2: Term, id: usize)
    requires
        admits(sets, s),
    ensures
        fits_pair(sets, t1, t2, id, value(s, t1, id), value(s, t2, id)),
{
    resolved_is_exact(sets, s, t1, id);
    resolved_is_exact(sets, s, t2, id);
    if let (Term::Variable(v), Term::Variable(w)) = (resolved(sets, t1, id), resolved(sets, t2, id)) {
        lemma_found_class(sets, (v, id));
        lemma_found_class(sets, (w, id));
        if same_class(sets, v, w, id) {
            if v != w {
                let k = var_class(sets, (v, id))->0;
                assert(class_members(sets, (v, id)).contains((w, id)));
                lemma_members(sets, s, v, id, (w, id));
            }
        } else if classes_apart(sets, v, w, id) {
            let i = var_class(sets, (v, id))->0;
            let j = var_class(sets, (w, id))->0;
            assert(admits_class(sets[i], s) && admits_class(sets[j], s));
            let p = choose|p: Object| #[trigger] takes(sets[i], s, p);
            let q = choose|q: Object| #[trigger] takes(sets[j], s, q);
            assert(sets[i].members.contains((v, id)) && sets[j].members.contains((w, id)));
            if meet_in(sets[i].others, sets[j].members) {
                let k = choose|k: int| 0 <= k < sets[i].others.len() && sets[j].members.contains(#[trigger] sets[i].others[k]);
                assert(sets[i].others.contains(sets[i].others[k]));
            } else {
                let k = choose|k: int| 0 <= k < sets[j].others.len() && sets[i].members.contains(#[trigger] sets[j].others[k]);
                assert(sets[j].others.contains(sets[j].others[k]));
            }
        }
    }
}

/// A pattern rejects no instance of its atom: where the classes are admitted and every
/// variable stands for an object of its type, what the terms stand for matches.
pub proof fn pattern_keeps_instances(t: Typing, sets: Seq<Class>, s: spec_fn(Variable, usize) -> Object, terms: Seq<Term>, id: usize)
    requires
        admits(sets, s),
        sound(t, sets),
        well_typed(t, s),
    ensures
        ground_matches(t, sets, terms, id, Seq::new(terms.len(), |i: int| Term::Object(value(s, terms[i], id)))),
{
    let ground = Seq::new(terms.len(), |i: int| Term::Object(value(s, terms[i], id)));
    assert forall|i: int| 0 <= i < terms.len() implies fits_term(t, sets, #[trigger] terms[i], id, ground[i]->Object_0) by {
        lemma_fits_term(t, sets, s, terms[i], id);
    }
    assert forall|i: int, j: int| 0 <= i < j < terms.len() implies fits_pair(
        sets,
        #[trigger] terms[i],
        #[trigger] terms[j],
        id,
        ground[i]->Object_0,
        ground[j]->Object_0,
    ) by {
        lemma_fits_pair(t, sets, s, terms[i], terms[j], id);
    }
}

/// Once an equality is added, its opposite is refused, and a variable that was equated
/// with an object is bound to it.
pub proof fn equality_settles(t: Typing, sets: Seq<Class>, b: Binding, after: Seq<Class>)
    requires
        b.equality,
        bound(t, sets, b) == Some(after),
    ensures
        bound(t, after, Binding { equality: false, ..b }) is None,
        b.term matches Term::Object(o) ==> resolved(after, Term::Variable(b.var), b.var_id) == Term::Object(o),
        resolved(after, Term::Variable(b.var), b.var_id) is Object || b.term is Object ==> resolved(after, b.term, b.term_id) == resolved(
            after,
            Term::Variable(b.var),
            b.var_id,
        ),
{
    let var = (b.var, b.var_id);
    let c = equated(t, sets, b)->0;
    lemma_found_class(sets, var);
    match b.term {
        Term::Object(o) => {
            lemma_found_object(sets, o);
        },
        Term::Variable(v) => {
            lemma_found_class(sets, (v, b.term_id));
        },
    }
    match (var_class(sets, var), term_class(sets, b.term, b.term_id)) {
        (Some(i), Some(j)) => {
            lemma_stacked(sets[j].members, sets[i].members, var);
            match b.term {
                Term::Object(_) => {},
                Term::Variable(v) => {
                    lemma_stacked(sets[j].members, sets[i].members, (v, b.term_id));
                },
            }
        },
        (None, None) => {
            match b.term {
                Term::Object(_) => {
                    assert(c.members[0] == var);
                },
                Term::Variable(v) => {
                    assert(c.members[0] == (v, b.term_id));
                    assert(c.members[1] == var);
                },
            }
        },
        (None, Some(j)) => {
            let m = seq![var] + sets[j].members;
            assert(m[0] == var);
            match b.term {
                Term::Object(_) => {},
                Term::Variable(v) => {
                    let k = choose|k: int| 0 <= k < sets[j].members.len() && sets[j].members[k] == (v, b.term_id);
                    assert(m[k + 1] == (v, b.term_id));
                },
            }
        },
        (Some(i), None) => {
            match b.term {
                Term::Object(_) => {},
                Term::Variable(v) => {
                    let m = seq![(v, b.term_id)] + sets[i].members;
                    assert(m[0] == (v, b.term_id));
                    let k = choose|k: int| 0 <= k < sets[i].members.len() && sets[i].members[k] == var;
                    assert(m[k + 1] == var);
                },
            }
        },
    }
    assert(after[0] == c);
    assert(c.members.contains(var));
    assert(var_class(after, var) == Some(0int));
    assert(term_class(after, b.term, b.term_id) == Some(0int));
}

/// Once the unifier of two atoms is added, what the terms of the one are bound to and
/// what those of the other are bound to stand for the same objects.
pub proof fn added_unifier_makes_atoms_agree(
    t: Typing,
    sets: Seq<Class>,
    a1: AtomView,
    id1: usize,
    a2: AtomView,
    id2: usize,
    after: Seq<Class>,
    s: spec_fn(Variable, usize) -> Object,
)
    requires
        sound(t, sets),
        atoms_unify(t, sets, seq![], a1, id1, a2, id2),
        bound_all(t, sets, unifier(t, sets, a1, id1, a2, id2)) == Some(after),
        admits(after, s),
    ensures
        forall|i: int|
            0 <= i < a1.terms.len() ==> value(s, resolved(after, #[trigger] a1.terms[i], id1), id1) == value(
                s,
                resolved(after, a2.terms[i], id2),
                id2,
            ),
{
    bindings_are_exact(t, sets, unifier(t, sets, a1, id1, a2, id2), after, s);
    unifier_unifies(t, sets, a1, id1, a2, id2, s);
    assert forall|i: int| 0 <= i < a1.terms.len() implies value(s, resolved(after, #[trigger] a1.terms[i], id1), id1) == value(
        s,
        resolved(after, a2.terms[i], id2),
        id2,
    ) by {
        resolved_is_exact(after, s, a1.terms[i], id1);
        resolved_is_exact(after, s, a2.terms[i], id2);
        assert(value(s, a1.terms[i], id1) == value(s, a2.terms[i], id2));
    }
}

} // verus!
