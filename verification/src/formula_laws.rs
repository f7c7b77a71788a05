//! What formulas mean, and what the constructors keep of it.
use vstd::prelude::*;

use crate::formula::{
    all_negated, all_of, any_of, apart, apart_upto, both, conjuncts, disjuncts, either, lookup, negated, put, put_all, put_atom,
    put_term, shadow, AtomView, FormulaView,
};
use crate::predicates::Predicate;
use crate::terms::{Object, Term, Variable};

verus! {

/// A world: the facts that hold, the object each variable stands for in each
/// scope, and the objects each quantified variable ranges over.
pub struct World {
    pub facts: Set<(Predicate, Seq<Object>)>,
    pub values: spec_fn(Variable, Option<usize>) -> Object,
    pub ranges: spec_fn(Variable) -> Set<Object>,
}

/// The position of a variable in a list of parameters.
pub open spec fn slot(params: Seq<Variable>, v: Variable) -> Option<int>
    decreases params.len(),
{
    if params.len() == 0 {
        None
    } else if params.last() == v {
        Some(params.len() - 1)
    } else {
        slot(params.drop_last(), v)
    }
}

impl World {
    /// What a term stands for.
    pub open spec fn value(self, t: Term, id: Option<usize>) -> Object {
        match t {
            Term::Object(o) => o,
            Term::Variable(v) => (self.values)(v, id),
        }
    }

    /// What an atom says.
    pub open spec fn fact(self, a: AtomView) -> (Predicate, Seq<Object>) {
        (a.predicate, Seq::new(a.terms.len(), |i: int| self.value(a.terms[i], None)))
    }

    /// The world with the parameters of a quantifier standing for `os`.
    pub open spec fn with(self, params: Seq<Variable>, os: Seq<Object>) -> World {
        World {
            facts: self.facts,
            values: |v: Variable, id: Option<usize>|
                match slot(params, v) {
                    Some(i) => os[i],
                    None => (self.values)(v, id),
                },
            ranges: self.ranges,
        }
    }

    /// The world in which the substituted variables stand for their objects.
    pub open spec fn assigned(self, subst: Seq<(Variable, Term)>) -> World {
        World {
            facts: self.facts,
            values: |v: Variable, id: Option<usize>|
                match lookup(subst, v) {
                    Some(Term::Object(o)) => o,
                    _ => (self.values)(v, id),
                },
            ranges: self.ranges,
        }
    }

    /// Whether `os` are objects that the parameters range over.
    pub open spec fn fits(self, params: Seq<Variable>, os: Seq<Object>) -> bool {
        os.len() == params.len() && forall|i: int| 0 <= i < os.len() ==> (self.ranges)(params[i]).contains(#[trigger] os[i])
    }

    /// Whether a formula holds.
    pub open spec fn holds(self, f: FormulaView) -> bool
        decreases f, 0nat,
    {
        match f {
            FormulaView::True => true,
            FormulaView::False => false,
            FormulaView::Atom(a) => self.facts.contains(self.fact(a)),
            FormulaView::Negation(a) => !self.facts.contains(self.fact(a)),
            FormulaView::Equality(l, li, r, ri) => self.value(l, li) == self.value(r, ri),
            FormulaView::Inequality(l, li, r, ri) => self.value(l, li) != self.value(r, ri),
            FormulaView::Conjunction(cs) => forall|i: int| 0 <= i < cs.len() ==> self.holds(#[trigger] cs[i]),
            FormulaView::Disjunction(ds) => exists|i: int| 0 <= i < ds.len() && self.holds(#[trigger] ds[i]),
            FormulaView::Exists(params, body) => self.holds_for_some(params, *body),
            FormulaView::Forall(params, body) => self.holds_for_all(params, *body),
        }
    }

    /// Whether every formula of a list holds.
    pub open spec fn holds_all(self, fs: Seq<FormulaView>) -> bool {
        forall|i: int| 0 <= i < fs.len() ==> self.holds(#[trigger] fs[i])
    }

    /// Whether a formula holds whatever the parameters stand for.
    pub open spec fn holds_for_all(self, params: Seq<Variable>, body: FormulaView) -> bool
        decreases body, 1nat,
    {
        forall|os: Seq<Object>| #[trigger] self.fits(params, os) ==> self.with(params, os).holds(body)
    }

    /// Whether a formula holds for some objects that the parameters stand for.
    pub open spec fn holds_for_some(self, params: Seq<Variable>, body: FormulaView) -> bool
        decreases body, 1nat,
    {
        exists|os: Seq<Object>| #[trigger] self.fits(params, os) && self.with(params, os).holds(body)
    }

    /// Whether some formula of a list holds.
    pub open spec fn holds_any(self, fs: Seq<FormulaView>) -> bool {
        exists|i: int| 0 <= i < fs.len() && self.holds(#[trigger] fs[i])
    }
}

proof fn lemma_conjuncts(w: World, f: FormulaView)
    ensures
        w.holds(f) == w.holds_all(conjuncts(f)),
{
    let cs = conjuncts(f);
    if !(f is Conjunction) {
        assert(cs[0] == f);
    }
}

proof fn lemma_disjuncts(w: World, f: FormulaView)
    ensures
        w.holds(f) == w.holds_any(disjuncts(f)),
{
    let ds = disjuncts(f);
    if !(f is Disjunction) {
        assert(ds[0] == f);
    }
}

proof fn lemma_quantified(w: World, params: Seq<Variable>, body: FormulaView)
    ensures
        w.holds_for_some(params, body) == exists|os: Seq<Object>| #[trigger] w.fits(params, os) && w.with(params, os).holds(body),
        w.holds_for_all(params, body) == forall|os: Seq<Object>| #[trigger] w.fits(params, os) ==> w.with(params, os).holds(body),
{
}

/// The conjunction of two formulas holds exactly where both do.
pub proof fn conjunction_is_exact(w: World, f: FormulaView, g: FormulaView)
    ensures
        w.holds(both(f, g)) == (w.holds(f) && w.holds(g)),
{
    if !(f is False || g is False || f is True || g is True) {
        lemma_conjuncts(w, f);
        lemma_conjuncts(w, g);
        let a = conjuncts(f);
        let b = conjuncts(g);
        let ab = a + b;
        lemma_conjuncts(w, both(f, g));
        assert(conjuncts(both(f, g)) == ab);
        if w.holds(f) && w.holds(g) {
            assert forall|i: int| 0 <= i < ab.len() implies w.holds(#[trigger] ab[i]) by {
                if i < a.len() {
                    assert(ab[i] == a[i]);
                } else {
                    assert(ab[i] == b[i - a.len()]);
                }
            }
        }
        if w.holds(both(f, g)) {
            assert forall|i: int| 0 <= i < a.len() implies w.holds(#[trigger] a[i]) by {
                assert(ab[i] == a[i]);
            }
            assert forall|i: int| 0 <= i < b.len() implies w.holds(#[trigger] b[i]) by {
                assert(ab[a.len() + i] == b[i]);
            }
        }
    }
}

/// The disjunction of two formulas holds exactly where one of them does.
pub proof fn disjunction_is_exact(w: World, f: FormulaView, g: FormulaView)
    ensures
        w.holds(either(f, g)) == (w.holds(f) || w.holds(g)),
{
    if !(f is False || g is False || f is True || g is True) {
        lemma_disjuncts(w, f);
        lemma_disjuncts(w, g);
        let a = disjuncts(f);
        let b = disjuncts(g);
        let ab = a + b;
        lemma_disjuncts(w, either(f, g));
        assert(disjuncts(either(f, g)) == ab);
        if w.holds(f) {
            let i = choose|i: int| 0 <= i < a.len() && w.holds(#[trigger] a[i]);
            assert(ab[i] == a[i]);
        }
        if w.holds(g) {
            let i = choose|i: int| 0 <= i < b.len() && w.holds(#[trigger] b[i]);
            assert(ab[a.len() + i] == b[i]);
        }
        if w.holds(either(f, g)) {
            let i = choose|i: int| 0 <= i < ab.len() && w.holds(#[trigger] ab[i]);
            if i < a.len() {
                assert(ab[i] == a[i]);
            } else {
                assert(ab[i] == b[i - a.len()]);
            }
        }
    }
}

/// The conjunction of a list holds exactly where every member does.
pub proof fn conjoined_is_exact(w: World, fs: Seq<FormulaView>)
    ensures
        w.holds(all_of(fs)) == w.holds_all(fs),
    decreases fs.len(),
{
    if fs.len() > 0 {
        let front = fs.drop_last();
        conjoined_is_exact(w, front);
        conjunction_is_exact(w, all_of(front), fs.last());
        if w.holds_all(fs) {
            assert forall|i: int| 0 <= i < front.len() implies w.holds(#[trigger] front[i]) by {
                assert(front[i] == fs[i]);
            }
            assert(w.holds(fs[fs.len() - 1]));
        }
        if w.holds_all(front) && w.holds(fs.last()) {
            assert forall|i: int| 0 <= i < fs.len() implies w.holds(#[trigger] fs[i]) by {
                if i < front.len() {
                    assert(front[i] == fs[i]);
                }
            }
        }
    }
}

/// The disjunction of a list holds exactly where some member does.
pub proof fn disjoined_is_exact(w: World, fs: Seq<FormulaView>)
    ensures
        w.holds(any_of(fs)) == w.holds_any(fs),
    decreases fs.len(),
{
    if fs.len() > 0 {
        let front = fs.drop_last();
        disjoined_is_exact(w, front);
        disjunction_is_exact(w, any_of(front), fs.last());
        if w.holds_any(fs) {
            let i = choose|i: int| 0 <= i < fs.len() && w.holds(#[trigger] fs[i]);
            if i < front.len() {
                assert(front[i] == fs[i]);
            }
        }
        if w.holds_any(front) {
            let i = choose|i: int| 0 <= i < front.len() && w.holds(#[trigger] front[i]);
            assert(front[i] == fs[i]);
        }
        if w.holds(fs.last()) {
            assert(fs[fs.len() - 1] == fs.last());
        }
    }
}

/// The negation of a formula holds exactly where the formula does not.
pub proof fn negation_is_exact(w: World, f: FormulaView)
    ensures
        w.holds(negated(f)) == !w.holds(f),
    decreases f,
{
    match f {
        FormulaView::Conjunction(cs) => {
            let ns = all_negated(cs);
            lemma_conjuncts(w, f);
            disjoined_is_exact(w, ns);
            assert forall|i: int| 0 <= i < cs.len() implies w.holds(#[trigger] ns[i]) == !w.holds(cs[i]) by {
                negation_is_exact(w, cs[i]);
            }
            if !w.holds(f) {
                let i = choose|i: int| 0 <= i < cs.len() && !w.holds(#[trigger] cs[i]);
                assert(w.holds(ns[i]));
            }
        },
        FormulaView::Disjunction(ds) => {
            let ns = all_negated(ds);
            lemma_disjuncts(w, f);
            conjoined_is_exact(w, ns);
            assert forall|i: int| 0 <= i < ds.len() implies w.holds(#[trigger] ns[i]) == !w.holds(ds[i]) by {
                negation_is_exact(w, ds[i]);
            }
            if w.holds(f) {
                let i = choose|i: int| 0 <= i < ds.len() && w.holds(#[trigger] ds[i]);
                assert(!w.holds(ns[i]));
            } else {
                assert forall|i: int| 0 <= i < ns.len() implies w.holds(#[trigger] ns[i]) by {
                    assert(!w.holds(ds[i]));
                }
            }
        },
        FormulaView::Exists(params, body) => {
            assert forall|os: Seq<Object>| #[trigger] w.fits(params, os) implies w.with(params, os).holds(negated(*body)) == !w.with(
                params,
                os,
            ).holds(*body) by {
                negation_is_exact(w.with(params, os), *body);
            }
            lemma_quantified(w, params, *body);
            lemma_quantified(w, params, negated(*body));
        },
        FormulaView::Forall(params, body) => {
            assert forall|os: Seq<Object>| #[trigger] w.fits(params, os) implies w.with(params, os).holds(negated(*body)) == !w.with(
                params,
                os,
            ).holds(*body) by {
                negation_is_exact(w.with(params, os), *body);
            }
            lemma_quantified(w, params, *body);
            lemma_quantified(w, params, negated(*body));
        },
        _ => {},
    }
}

/// A substitution that gives objects only.
pub open spec fn object_valued(subst: Seq<(Variable, Term)>) -> bool {
    forall|i: int| 0 <= i < subst.len() ==> (#[trigger] subst[i]).1 is Object
}

proof fn lemma_lookup_object(subst: Seq<(Variable, Term)>, v: Variable)
    requires
        object_valued(subst),
    ensures
        lookup(subst, v) is Some ==> lookup(subst, v)->0 is Object,
    decreases subst.len(),
{
    if subst.len() > 0 && subst[0].0 != v {
        let rest = subst.drop_first();
        assert forall|i: int| 0 <= i < rest.len() implies (#[trigger] rest[i]).1 is Object by {
            assert(rest[i] == subst[i + 1]);
        }
        lemma_lookup_object(rest, v);
    }
}

proof fn lemma_put_value(w: World, t: Term, id: Option<usize>, subst: Seq<(Variable, Term)>)
    requires
        object_valued(subst),
    ensures
        w.value(put_term(t, subst), id) == w.assigned(subst).value(t, id),
{
    match t {
        Term::Variable(v) => {
            lemma_lookup_object(subst, v);
        },
        Term::Object(_) => {},
    }
}

proof fn lemma_put_fact(w: World, a: AtomView, subst: Seq<(Variable, Term)>)
    requires
        object_valued(subst),
    ensures
        w.fact(put_atom(a, subst)) == w.assigned(subst).fact(a),
{
    let b = put_atom(a, subst);
    assert forall|i: int| 0 <= i < a.terms.len() implies w.value(b.terms[i], None) == w.assigned(subst).value(a.terms[i], None) by {
        lemma_put_value(w, a.terms[i], None, subst);
    }
    assert(w.fact(b).1 =~= w.assigned(subst).fact(a).1);
}

proof fn lemma_lookup_append(a: Seq<(Variable, Term)>, x: (Variable, Term), v: Variable)
    ensures
        lookup(a.push(x), v) == (if lookup(a, v) is Some {
            lookup(a, v)
        } else if x.0 == v {
            Some(x.1)
        } else {
            None
        }),
    decreases a.len(),
{
    let b = a.push(x);
    if a.len() == 0 {
        assert(lookup(b.drop_first(), v) is None);
    } else {
        assert(b[0] == a[0]);
        assert(b.drop_first() =~= a.drop_first().push(x));
        lemma_lookup_append(a.drop_first(), x, v);
    }
}

proof fn lemma_shadow_lookup(subst: Seq<(Variable, Term)>, params: Seq<Variable>, v: Variable)
    ensures
        lookup(shadow(subst, params), v) == (if params.contains(v) {
            None
        } else {
            lookup(subst, v)
        }),
        object_valued(subst) ==> object_valued(shadow(subst, params)),
    decreases subst.len(),
{
    if subst.len() > 0 {
        let front = subst.drop_last();
        lemma_shadow_lookup(front, params, v);
        assert(subst =~= front.push(subst.last()));
        lemma_lookup_append(front, subst.last(), v);
        if object_valued(subst) {
            assert forall|i: int| 0 <= i < front.len() implies (#[trigger] front[i]).1 is Object by {
                assert(front[i] == subst[i]);
            }
        }
        if !params.contains(subst.last().0) {
            lemma_lookup_append(shadow(front, params), subst.last(), v);
        }
    }
}

proof fn lemma_slot(params: Seq<Variable>, v: Variable)
    ensures
        slot(params, v) is Some <==> params.contains(v),
    decreases params.len(),
{
    if params.len() > 0 {
        let front = params.drop_last();
        lemma_slot(front, v);
        if params.last() == v {
            assert(params[params.len() - 1] == v);
        } else if params.contains(v) {
            let k = choose|k: int| 0 <= k < params.len() && params[k] == v;
            assert(front[k] == v);
        } else if front.contains(v) {
            let k = choose|k: int| 0 <= k < front.len() && front[k] == v;
            assert(params[k] == v);
        }
    }
}

proof fn lemma_with_assigned(w: World, params: Seq<Variable>, os: Seq<Object>, subst: Seq<(Variable, Term)>)
    ensures
        w.with(params, os).assigned(shadow(subst, params)) == w.assigned(subst).with(params, os),
{
    let a = w.with(params, os).assigned(shadow(subst, params));
    let b = w.assigned(subst).with(params, os);
    assert forall|v: Variable, id: Option<usize>| #[trigger] (a.values)(v, id) == (b.values)(v, id) by {
        lemma_shadow_lookup(subst, params, v);
        lemma_slot(params, v);
    }
    assert(a.values =~= b.values);
}

/// A formula with objects substituted for variables holds exactly where the
/// formula holds once the variables stand for those objects.
pub proof fn substitution_is_exact(w: World, f: FormulaView, subst: Seq<(Variable, Term)>)
    requires
        object_valued(subst),
    ensures
        w.holds(put(f, subst)) == w.assigned(subst).holds(f),
    decreases f, 0nat,
{
    let u = w.assigned(subst);
    match f {
        FormulaView::Atom(a) => {
            lemma_put_fact(w, a, subst);
        },
        FormulaView::Negation(a) => {
            lemma_put_fact(w, a, subst);
        },
        FormulaView::Equality(l, li, r, ri) => {
            lemma_put_value(w, l, li, subst);
            lemma_put_value(w, r, ri, subst);
        },
        FormulaView::Inequality(l, li, r, ri) => {
            lemma_put_value(w, l, li, subst);
            lemma_put_value(w, r, ri, subst);
        },
        FormulaView::Conjunction(cs) => {
            let ps = put_all(cs, subst);
            lemma_conjuncts(w, put(f, subst));
            lemma_conjuncts(u, f);
            assert forall|i: int| 0 <= i < cs.len() implies w.holds(#[trigger] ps[i]) == u.holds(cs[i]) by {
                substitution_is_exact(w, cs[i], subst);
            }
            if w.holds(put(f, subst)) {
                assert forall|i: int| 0 <= i < cs.len() implies u.holds(#[trigger] cs[i]) by {
                    assert(w.holds(ps[i]));
                }
            }
        },
        FormulaView::Disjunction(ds) => {
            let ps = put_all(ds, subst);
            lemma_disjuncts(w, put(f, subst));
            lemma_disjuncts(u, f);
            assert forall|i: int| 0 <= i < ds.len() implies w.holds(#[trigger] ps[i]) == u.holds(ds[i]) by {
                substitution_is_exact(w, ds[i], subst);
            }
            if u.holds(f) {
                let i = choose|i: int| 0 <= i < ds.len() && u.holds(#[trigger] ds[i]);
                assert(w.holds(ps[i]));
            }
        },
        FormulaView::Exists(params, body) => {
            lemma_put_body(w, params, *body, subst);
            lemma_quantified(w, params, put(*body, shadow(subst, params)));
            lemma_quantified(u, params, *body);
            if w.holds(put(f, subst)) {
                let os = choose|os: Seq<Object>| #[trigger]
                    w.fits(params, os) && w.with(params, os).holds(put(*body, shadow(subst, params)));
                assert(u.fits(params, os));
            }
            if u.holds(f) {
                let os = choose|os: Seq<Object>| #[trigger] u.fits(params, os) && u.with(params, os).holds(*body);
                assert(w.fits(params, os));
            }
        },
        FormulaView::Forall(params, body) => {
            lemma_put_body(w, params, *body, subst);
            lemma_quantified(w, params, put(*body, shadow(subst, params)));
            lemma_quantified(u, params, *body);
            if w.holds(put(f, subst)) {
                assert forall|os: Seq<Object>| #[trigger] u.fits(params, os) implies u.with(params, os).holds(*body) by {
                    assert(w.fits(params, os));
                }
            }
            if u.holds(f) {
                assert forall|os: Seq<Object>| #[trigger] w.fits(params, os) implies w.with(params, os).holds(
                    put(*body, shadow(subst, params)),
                ) by {
                    assert(u.fits(params, os));
                }
            }
        },
        _ => {},
    }
}

proof fn lemma_put_body(w: World, params: Seq<Variable>, body: FormulaView, subst: Seq<(Variable, Term)>)
    requires
        object_valued(subst),
    ensures
        forall|os: Seq<Object>| #[trigger] w.fits(params, os) ==> w.with(params, os).holds(put(body, shadow(subst, params))) == w.assigned(
            subst,
        ).with(params, os).holds(body),
        forall|os: Seq<Object>| w.fits(params, os) == #[trigger] w.assigned(subst).fits(params, os),
    decreases body, 1nat,
{
    lemma_shadow_lookup(subst, params, Variable(0));
    assert forall|os: Seq<Object>| #[trigger] w.fits(params, os) implies w.with(params, os).holds(put(body, shadow(subst, params)))
        == w.assigned(subst).with(params, os).holds(body) by {
        substitution_is_exact(w.with(params, os), body, shadow(subst, params));
        lemma_with_assigned(w, params, os, subst);
    }
}

/// Whether the first `n` terms of two lists stand for the same objects.
spec fn agree_upto(w: World, t1: Seq<Term>, t2: Seq<Term>, n: nat) -> bool {
    forall|i: int| 0 <= i < n ==> w.value(#[trigger] t1[i], None) == w.value(t2[i], None)
}

proof fn lemma_apart_upto(w: World, t1: Seq<Term>, t2: Seq<Term>, n: nat)
    requires
        n <= t1.len(),
        n <= t2.len(),
    ensures
        match apart_upto(t1, t2, n) {
            None => !agree_upto(w, t1, t2, n),
            Some(f) => w.holds(f) == !agree_upto(w, t1, t2, n),
        },
    decreases n,
{
    if n > 0 {
        let m = (n - 1) as nat;
        lemma_apart_upto(w, t1, t2, m);
        let l = t1[n - 1];
        let r = t2[n - 1];
        if agree_upto(w, t1, t2, n) {
            assert(agree_upto(w, t1, t2, m));
            assert(w.value(t1[n - 1], None) == w.value(t2[n - 1], None));
        }
        match apart_upto(t1, t2, m) {
            None => {},
            Some(d) => {
                disjunction_is_exact(w, d, crate::formula::differ(l, r));
            },
        }
    }
}

/// What keeps two atoms apart holds exactly where they say different things; and
/// where nothing is needed they never say the same.
pub proof fn separation_is_exact(w: World, a1: AtomView, a2: AtomView)
    ensures
        match apart(a1, a2) {
            None => w.fact(a1) != w.fact(a2),
            Some(f) => w.holds(f) == (w.fact(a1) != w.fact(a2)),
        },
{
    let f1 = w.fact(a1);
    let f2 = w.fact(a2);
    if a1.predicate == a2.predicate && a1.terms.len() == a2.terms.len() {
        let n = a1.terms.len();
        lemma_apart_upto(w, a1.terms, a2.terms, n);
        if f1 == f2 {
            assert forall|i: int| 0 <= i < n implies w.value(#[trigger] a1.terms[i], None) == w.value(a2.terms[i], None) by {
                assert(f1.1[i] == f2.1[i]);
            }
        } else {
            if agree_upto(w, a1.terms, a2.terms, n) {
                assert(f1.1 =~= f2.1);
            }
        }
    } else if f1 == f2 {
        assert(f1.1.len() == f2.1.len());
    }
}

/// Conjunction is associative.
proof fn lemma_both_associates(f: FormulaView, g: FormulaView, h: FormulaView)
    ensures
        both(both(f, g), h) == both(f, both(g, h)),
{
    if !(f is False || g is False || h is False || f is True || g is True || h is True) {
        assert((conjuncts(f) + conjuncts(g)) + conjuncts(h) =~= conjuncts(f) + (conjuncts(g) + conjuncts(h)));
    }
}

/// The conjunction of two lists is that of their conjunctions.
proof fn lemma_all_of_joined(a: Seq<FormulaView>, b: Seq<FormulaView>)
    ensures
        all_of(a + b) == both(all_of(a), all_of(b)),
    decreases b.len(),
{
    if b.len() == 0 {
        assert(a + b =~= a);
    } else {
        assert((a + b).drop_last() =~= a + b.drop_last());
        lemma_all_of_joined(a, b.drop_last());
        lemma_both_associates(all_of(a), all_of(b.drop_last()), b.last());
    }
}

/// Negating each disjunct and joining what results negates the formula.
proof fn lemma_negated_disjuncts(f: FormulaView)
    ensures
        all_of(all_negated(disjuncts(f))) == negated(f),
{
    if !(f is Disjunction) {
        let ns = all_negated(seq![f]);
        assert(ns =~= seq![negated(f)]);
        assert(ns.drop_last() =~= seq![]);
        assert(all_of(ns.drop_last()) == FormulaView::True);
    }
}

/// The disjunction of two formulas that are neither true nor false has the disjuncts
/// of the first and then those of the second.
pub proof fn disjunction_keeps_disjuncts(f: FormulaView, g: FormulaView)
    requires
        !(f is True || f is False || g is True || g is False),
    ensures
        either(f, g) == FormulaView::Disjunction(disjuncts(f) + disjuncts(g)),
{
}

/// What is true or false leaves a disjunction: with the one the whole is true, with the
/// other it is the other formula.
pub proof fn disjunction_drops_constants(f: FormulaView)
    ensures
        either(f, FormulaView::True) == FormulaView::True,
        either(FormulaView::True, f) == FormulaView::True,
        either(f, FormulaView::False) == f,
        either(FormulaView::False, f) == f,
{
}

/// The negation of a disjunction is the conjunction of the negations, in structure too.
pub proof fn negated_disjunction_is_conjunction(f: FormulaView, g: FormulaView)
    ensures
        negated(either(f, g)) == both(negated(f), negated(g)),
{
    if !(f is True || f is False || g is True || g is False) {
        let a = disjuncts(f);
        let b = disjuncts(g);
        assert(all_negated(a + b) =~= all_negated(a) + all_negated(b));
        lemma_all_of_joined(all_negated(a), all_negated(b));
        lemma_negated_disjuncts(f);
        lemma_negated_disjuncts(g);
    }
}

/// Whether a formula can stand in a conjunction as it is: neither a constant nor a
/// conjunction.
pub open spec fn stands_in_conjunction(f: FormulaView) -> bool {
    !(f is True || f is False || f is Conjunction)
}

/// Whether a formula can stand in a disjunction as it is.
pub open spec fn stands_in_disjunction(f: FormulaView) -> bool {
    !(f is True || f is False || f is Disjunction)
}

/// Whether a formula is flattened and simplified, as the connectives make it: a
/// conjunction has two conjuncts or more, none of them a constant or a conjunction, and
/// so for disjunctions.
pub open spec fn is_flat(f: FormulaView) -> bool
    decreases f,
{
    match f {
        FormulaView::Conjunction(cs) => {
            &&& cs.len() >= 2
            &&& forall|i: int| 0 <= i < cs.len() ==> stands_in_conjunction(#[trigger] cs[i]) && is_flat(cs[i])
        },
        FormulaView::Disjunction(ds) => {
            &&& ds.len() >= 2
            &&& forall|i: int| 0 <= i < ds.len() ==> stands_in_disjunction(#[trigger] ds[i]) && is_flat(ds[i])
        },
        FormulaView::Exists(_, body) => is_flat(*body),
        FormulaView::Forall(_, body) => is_flat(*body),
        _ => true,
    }
}

/// Formulas that can stand in a conjunction do so.
proof fn lemma_conjoined(fs: Seq<FormulaView>)
    requires
        fs.len() >= 1,
        forall|i: int| 0 <= i < fs.len() ==> stands_in_conjunction(#[trigger] fs[i]),
    ensures
        all_of(fs) == (if fs.len() == 1 {
            fs[0]
        } else {
            FormulaView::Conjunction(fs)
        }),
    decreases fs.len(),
{
    let front = fs.drop_last();
    assert(stands_in_conjunction(fs[fs.len() - 1]));
    if front.len() == 0 {
        assert(all_of(front) == FormulaView::True);
    } else {
        assert forall|i: int| 0 <= i < front.len() implies stands_in_conjunction(#[trigger] front[i]) by {
            assert(front[i] == fs[i]);
        }
        lemma_conjoined(front);
        assert(stands_in_conjunction(front[0]));
        assert(conjuncts(all_of(front)) =~= front);
        assert(front + seq![fs.last()] =~= fs);
    }
}

/// Formulas that can stand in a disjunction do so.
proof fn lemma_disjoined(fs: Seq<FormulaView>)
    requires
        fs.len() >= 1,
        forall|i: int| 0 <= i < fs.len() ==> stands_in_disjunction(#[trigger] fs[i]),
    ensures
        any_of(fs) == (if fs.len() == 1 {
            fs[0]
        } else {
            FormulaView::Disjunction(fs)
        }),
    decreases fs.len(),
{
    let front = fs.drop_last();
    assert(stands_in_disjunction(fs[fs.len() - 1]));
    if front.len() == 0 {
        assert(any_of(front) == FormulaView::False);
    } else {
        assert forall|i: int| 0 <= i < front.len() implies stands_in_disjunction(#[trigger] front[i]) by {
            assert(front[i] == fs[i]);
        }
        lemma_disjoined(front);
        assert(stands_in_disjunction(front[0]));
        assert(disjuncts(any_of(front)) =~= front);
        assert(front + seq![fs.last()] =~= fs);
    }
}

/// Negating a flattened formula swaps constants, conjunctions and disjunctions, keeps
/// it flattened, and is undone by negating again.
proof fn lemma_flat_negation(f: FormulaView)
    requires
        is_flat(f),
    ensures
        negated(negated(f)) == f,
        stands_in_conjunction(f) ==> stands_in_disjunction(negated(f)),
        stands_in_disjunction(f) ==> stands_in_conjunction(negated(f)),
    decreases f,
{
    match f {
        FormulaView::Conjunction(cs) => {
            let ns = all_negated(cs);
            assert forall|i: int| 0 <= i < ns.len() implies stands_in_disjunction(#[trigger] ns[i]) by {
                assert(stands_in_conjunction(cs[i]) && is_flat(cs[i]));
                lemma_flat_negation(cs[i]);
            }
            lemma_disjoined(ns);
            let back = all_negated(ns);
            assert forall|i: int| 0 <= i < back.len() implies #[trigger] back[i] == cs[i] by {
                assert(stands_in_conjunction(cs[i]) && is_flat(cs[i]));
                assert(ns[i] == negated(cs[i]));
                lemma_flat_negation(cs[i]);
            }
            assert(back =~= cs);
            lemma_conjoined(cs);
        },
        FormulaView::Disjunction(ds) => {
            let ns = all_negated(ds);
            assert forall|i: int| 0 <= i < ns.len() implies stands_in_conjunction(#[trigger] ns[i]) by {
                assert(stands_in_disjunction(ds[i]) && is_flat(ds[i]));
                lemma_flat_negation(ds[i]);
            }
            lemma_conjoined(ns);
            let back = all_negated(ns);
            assert forall|i: int| 0 <= i < back.len() implies #[trigger] back[i] == ds[i] by {
                assert(stands_in_disjunction(ds[i]) && is_flat(ds[i]));
                assert(ns[i] == negated(ds[i]));
                lemma_flat_negation(ds[i]);
            }
            assert(back =~= ds);
            lemma_disjoined(ds);
        },
        FormulaView::Exists(_, body) => {
            lemma_flat_negation(*body);
        },
        FormulaView::Forall(_, body) => {
            lemma_flat_negation(*body);
        },
        _ => {},
    }
}

/// Negating a flattened formula twice gives it back.
pub proof fn double_negation_gives_back(f: FormulaView)
    requires
        is_flat(f),
    ensures
        negated(negated(f)) == f,
{
    lemma_flat_negation(f);
}

/// The connectives make flattened formulas of flattened ones.
pub proof fn connectives_keep_flat(f: FormulaView, g: FormulaView)
    requires
        is_flat(f),
        is_flat(g),
    ensures
        is_flat(both(f, g)),
        is_flat(either(f, g)),
{
    if !(f is True || f is False || g is True || g is False) {
        let cs = conjuncts(f) + conjuncts(g);
        assert forall|i: int| 0 <= i < cs.len() implies stands_in_conjunction(#[trigger] cs[i]) && is_flat(cs[i]) by {
            if i < conjuncts(f).len() {
                assert(cs[i] == conjuncts(f)[i]);
            } else {
                assert(cs[i] == conjuncts(g)[i - conjuncts(f).len()]);
            }
        }
        let ds = disjuncts(f) + disjuncts(g);
        assert forall|i: int| 0 <= i < ds.len() implies stands_in_disjunction(#[trigger] ds[i]) && is_flat(ds[i]) by {
            if i < disjuncts(f).len() {
                assert(ds[i] == disjuncts(f)[i]);
            } else {
                assert(ds[i] == disjuncts(g)[i - disjuncts(f).len()]);
            }
        }
    }
}

} // verus!
