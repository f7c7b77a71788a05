//! The scope of partial plans: all that a plan holds speaks of its own steps and of
//! variables that it has.
use vstd::prelude::*;

use crate::agenda::{
    foralls, foralls_all, instances, lemma_base_foralls, lemma_foralls_less, lemma_foralls_member, universal_base, with_equation, with_goal,
    with_goals, Agenda,
};
use crate::bindings::{
    bound, bound_all, equated, fronted, kept_from_term, kept_from_var, lemma_found_class, lemma_found_object, made, match_ground,
    match_lifted, same_head, term_class, unifier, var_class, Binding, Class,
};
use crate::bindings_laws::{lemma_cons_has, lemma_pair_has, lemma_stacked};
use crate::effect::EffectView;
use crate::flaws::{removed, FlawView, LinkView, OpenView, UnsafeView};
use crate::formula::{
    all_negated, all_of, any_of, both, conjuncts, disjuncts, either, lookup, negated, put, put_all, put_atom, put_term, shadow, AtomView,
    FormulaView, LiteralView,
};
use crate::plan::{flaw_plans, GOAL_ID, INIT_ID};
use crate::pattern_laws::{arises, is_transitive};
use crate::plan_bindings_laws::{is_settled, plans_keep_arising};
use crate::plan_model::{
    absence, absence_plan, appended, disjunct_plans, domain_of, effect_threats, first_plan, goal_plan, link_agenda, link_child, link_goal,
    link_names, name_of, named_all, names_for, new_step_plans, object_plan, object_plans, ordered_plan, parting, reuse_by_step, reuse_plans,
    separated_plan, separation, separation_names, some_parted, some_separated, threat_unifier, threats_by, threats_to, types_at, with_name,
    with_names, PlanView, Renaming,
};
use crate::search::{effects_among, effects_for, ContextView};
use crate::select::is_flaw_of;
use crate::step::{StepActionView, StepTypesView, StepView};
use crate::terms::{Object, Term, Variable};
use crate::types::Type;
use crate::typing::Typing;

verus! {

/// The variables below a number, and the steps with the ids of a set.
#[verifier::ext_equal]
pub struct Scope {
    pub limit: nat,
    pub ids: Set<usize>,
}

impl Scope {
    pub open spec fn below(self, other: Scope) -> bool {
        self.limit <= other.limit && self.ids.subset_of(other.ids)
    }

    pub open spec fn has_term(self, t: Term) -> bool {
        t matches Term::Variable(v) ==> v.0 < self.limit
    }

    pub open spec fn has_atom(self, a: AtomView) -> bool {
        forall|i: int| 0 <= i < a.terms.len() ==> self.has_term(#[trigger] a.terms[i])
    }

    /// Whether a side of an (in)equality is in scope, with the step of a variable where it
    /// has one of its own.
    pub open spec fn has_side(self, t: Term, id: Option<usize>) -> bool {
        self.has_term(t) && (t is Variable ==> (id matches Some(i) ==> self.ids.contains(i)))
    }

    /// Whether a formula speaks only of what is in scope.
    pub open spec fn has(self, f: FormulaView) -> bool
        decreases f,
    {
        match f {
            FormulaView::True | FormulaView::False => true,
            FormulaView::Atom(a) => self.has_atom(a),
            FormulaView::Negation(a) => self.has_atom(a),
            FormulaView::Equality(l, li, r, ri) => self.has_side(l, li) && self.has_side(r, ri),
            FormulaView::Inequality(l, li, r, ri) => self.has_side(l, li) && self.has_side(r, ri),
            FormulaView::Conjunction(cs) => forall|i: int| 0 <= i < cs.len() ==> self.has(#[trigger] cs[i]),
            FormulaView::Disjunction(ds) => forall|i: int| 0 <= i < ds.len() ==> self.has(#[trigger] ds[i]),
            FormulaView::Exists(_, body) => self.has(*body),
            FormulaView::Forall(_, body) => self.has(*body),
        }
    }

    pub open spec fn has_open(self, o: OpenView) -> bool {
        self.ids.contains(o.step_id) && self.has(o.condition)
    }

    pub open spec fn has_opens(self, os: Seq<OpenView>) -> bool {
        forall|i: int| 0 <= i < os.len() ==> self.has_open(#[trigger] os[i])
    }

    pub open spec fn has_binding(self, b: Binding) -> bool {
        &&& self.ids.contains(b.var_id)
        &&& b.var.0 < self.limit
        &&& self.has_term(b.term)
        &&& b.term is Variable ==> self.ids.contains(b.term_id)
    }

    pub open spec fn has_bindings(self, bs: Seq<Binding>) -> bool {
        forall|i: int| 0 <= i < bs.len() ==> self.has_binding(#[trigger] bs[i])
    }

    /// Whether a substitution gives only terms in scope.
    pub open spec fn has_subst(self, subst: Seq<(Variable, Term)>) -> bool {
        forall|i: int| 0 <= i < subst.len() ==> self.has_term((#[trigger] subst[i]).1)
    }
}

proof fn lemma_wider(sc: Scope, wide: Scope, f: FormulaView)
    requires
        sc.below(wide),
        sc.has(f),
    ensures
        wide.has(f),
    decreases f,
{
    match f {
        FormulaView::Conjunction(cs) => {
            assert forall|i: int| 0 <= i < cs.len() implies wide.has(#[trigger] cs[i]) by {
                assert(sc.has(cs[i]));
                lemma_wider(sc, wide, cs[i]);
            }
        },
        FormulaView::Disjunction(ds) => {
            assert forall|i: int| 0 <= i < ds.len() implies wide.has(#[trigger] ds[i]) by {
                assert(sc.has(ds[i]));
                lemma_wider(sc, wide, ds[i]);
            }
        },
        FormulaView::Exists(_, body) => {
            lemma_wider(sc, wide, *body);
        },
        FormulaView::Forall(_, body) => {
            lemma_wider(sc, wide, *body);
        },
        _ => {},
    }
}

proof fn lemma_lookup_in(sc: Scope, subst: Seq<(Variable, Term)>, v: Variable)
    requires
        sc.has_subst(subst),
    ensures
        lookup(subst, v) matches Some(u) ==> sc.has_term(u),
    decreases subst.len(),
{
    if subst.len() > 0 {
        let rest = subst.drop_first();
        assert(sc.has_term(subst[0].1));
        assert forall|i: int| 0 <= i < rest.len() implies sc.has_term((#[trigger] rest[i]).1) by {
            assert(rest[i] == subst[i + 1]);
        }
        lemma_lookup_in(sc, rest, v);
    }
}

proof fn lemma_shadow_in(sc: Scope, subst: Seq<(Variable, Term)>, params: Seq<Variable>)
    requires
        sc.has_subst(subst),
    ensures
        sc.has_subst(shadow(subst, params)),
    decreases subst.len(),
{
    if subst.len() > 0 {
        let front = subst.drop_last();
        assert forall|i: int| 0 <= i < front.len() implies sc.has_term((#[trigger] front[i]).1) by {
            assert(front[i] == subst[i]);
        }
        lemma_shadow_in(sc, front, params);
        assert(sc.has_term(subst[subst.len() - 1].1));
    }
}

proof fn lemma_put_atom_in(sc: Scope, a: AtomView, subst: Seq<(Variable, Term)>)
    requires
        sc.has_atom(a),
        sc.has_subst(subst),
    ensures
        sc.has_atom(put_atom(a, subst)),
{
    let b = put_atom(a, subst);
    assert forall|i: int| 0 <= i < b.terms.len() implies sc.has_term(#[trigger] b.terms[i]) by {
        lemma_put_term_in(sc, a.terms[i], subst);
    }
}

proof fn lemma_put_term_in(sc: Scope, t: Term, subst: Seq<(Variable, Term)>)
    requires
        sc.has_term(t),
        sc.has_subst(subst),
    ensures
        sc.has_term(put_term(t, subst)),
{
    if let Term::Variable(v) = t {
        lemma_lookup_in(sc, subst, v);
    }
}

proof fn lemma_put_in(sc: Scope, f: FormulaView, subst: Seq<(Variable, Term)>)
    requires
        sc.has(f),
        sc.has_subst(subst),
    ensures
        sc.has(put(f, subst)),
    decreases f,
{
    match f {
        FormulaView::Atom(a) => {
            lemma_put_atom_in(sc, a, subst);
        },
        FormulaView::Negation(a) => {
            lemma_put_atom_in(sc, a, subst);
        },
        FormulaView::Equality(l, _, r, _) => {
            lemma_put_term_in(sc, l, subst);
            lemma_put_term_in(sc, r, subst);
        },
        FormulaView::Inequality(l, _, r, _) => {
            lemma_put_term_in(sc, l, subst);
            lemma_put_term_in(sc, r, subst);
        },
        FormulaView::Conjunction(cs) => {
            let gs = put_all(cs, subst);
            assert forall|i: int| 0 <= i < gs.len() implies sc.has(#[trigger] gs[i]) by {
                assert(sc.has(cs[i]));
                lemma_put_in(sc, cs[i], subst);
            }
        },
        FormulaView::Disjunction(ds) => {
            let gs = put_all(ds, subst);
            assert forall|i: int| 0 <= i < gs.len() implies sc.has(#[trigger] gs[i]) by {
                assert(sc.has(ds[i]));
                lemma_put_in(sc, ds[i], subst);
            }
        },
        FormulaView::Exists(params, body) => {
            lemma_shadow_in(sc, subst, params);
            lemma_put_in(sc, *body, shadow(subst, params));
        },
        FormulaView::Forall(params, body) => {
            lemma_shadow_in(sc, subst, params);
            lemma_put_in(sc, *body, shadow(subst, params));
        },
        _ => {},
    }
}

proof fn lemma_both_in(sc: Scope, f: FormulaView, g: FormulaView)
    requires
        sc.has(f),
        sc.has(g),
    ensures
        sc.has(both(f, g)),
        sc.has(either(f, g)),
{
    let a = conjuncts(f);
    let b = conjuncts(g);
    let ab = a + b;
    assert forall|i: int| 0 <= i < ab.len() implies sc.has(#[trigger] ab[i]) by {
        if i < a.len() {
            assert(sc.has(a[i]));
        } else {
            assert(sc.has(b[i - a.len()]));
        }
    }
    let c = disjuncts(f);
    let d = disjuncts(g);
    let cd = c + d;
    assert forall|i: int| 0 <= i < cd.len() implies sc.has(#[trigger] cd[i]) by {
        if i < c.len() {
            assert(sc.has(c[i]));
        } else {
            assert(sc.has(d[i - c.len()]));
        }
    }
}

proof fn lemma_lists_in(sc: Scope, fs: Seq<FormulaView>)
    requires
        forall|i: int| 0 <= i < fs.len() ==> sc.has(#[trigger] fs[i]),
    ensures
        sc.has(all_of(fs)),
        sc.has(any_of(fs)),
    decreases fs.len(),
{
    if fs.len() > 0 {
        let front = fs.drop_last();
        assert forall|i: int| 0 <= i < front.len() implies sc.has(#[trigger] front[i]) by {
            assert(sc.has(fs[i]));
        }
        lemma_lists_in(sc, front);
        assert(sc.has(fs[fs.len() - 1]));
        lemma_both_in(sc, all_of(front), fs.last());
        lemma_both_in(sc, any_of(front), fs.last());
    }
}

proof fn lemma_negated_in(sc: Scope, f: FormulaView)
    requires
        sc.has(f),
    ensures
        sc.has(negated(f)),
    decreases f,
{
    match f {
        FormulaView::Conjunction(cs) => {
            let gs = all_negated(cs);
            assert forall|i: int| 0 <= i < gs.len() implies sc.has(#[trigger] gs[i]) by {
                assert(sc.has(cs[i]));
                lemma_negated_in(sc, cs[i]);
            }
            lemma_lists_in(sc, gs);
        },
        FormulaView::Disjunction(ds) => {
            let gs = all_negated(ds);
            assert forall|i: int| 0 <= i < gs.len() implies sc.has(#[trigger] gs[i]) by {
                assert(sc.has(ds[i]));
                lemma_negated_in(sc, ds[i]);
            }
            lemma_lists_in(sc, gs);
        },
        FormulaView::Exists(_, body) => {
            lemma_negated_in(sc, *body);
        },
        FormulaView::Forall(_, body) => {
            lemma_negated_in(sc, *body);
        },
        _ => {},
    }
}

proof fn lemma_base_in(sc: Scope, t: Typing, params: Seq<Variable>, body: FormulaView, id: usize)
    requires
        sc.has(body),
    ensures
        sc.has(universal_base(t, params, body, id)),
    decreases params.len(),
{
    if params.len() > 0 {
        let os = t.range(t.var_ty(params[0], id));
        let fs = instances(t, params, body, id, os);
        assert forall|i: int| 0 <= i < fs.len() implies sc.has(#[trigger] fs[i]) by {
            let subst = seq![(params[0], Term::Object(os[i]))];
            lemma_put_in(sc, body, subst);
            lemma_base_in(sc, t, params.drop_first(), put(body, subst), id);
        }
        lemma_lists_in(sc, fs);
    }
}

/// Whether an agenda holds only what is in scope.
spec fn has_agenda(sc: Scope, a: Agenda) -> bool {
    sc.has_opens(a.opens) && sc.has_bindings(a.binds)
}

proof fn lemma_push_opens(sc: Scope, a: Agenda, o: OpenView)
    requires
        has_agenda(sc, a),
        sc.has_open(o),
    ensures
        has_agenda(sc, Agenda { opens: seq![o] + a.opens, ..a }),
{
    let os = seq![o] + a.opens;
    assert forall|i: int| 0 <= i < os.len() implies sc.has_open(#[trigger] os[i]) by {
        if i > 0 {
            assert(os[i] == a.opens[i - 1]);
        }
    }
}

proof fn lemma_equation_in(sc: Scope, a: Agenda, l: Term, li: Option<usize>, r: Term, ri: Option<usize>, id: usize, equality: bool)
    requires
        has_agenda(sc, a),
        sc.ids.contains(id),
        sc.has_side(l, li),
        sc.has_side(r, ri),
    ensures
        with_equation(a, l, li, r, ri, id, equality) matches Some(b) ==> has_agenda(sc, b),
{
}

proof fn lemma_goals_in(sc: Scope, t: Typing, a: Agenda, fs: Seq<FormulaView>, n: nat, id: usize)
    requires
        has_agenda(sc, a),
        sc.ids.contains(id),
        n <= fs.len(),
        forall|i: int| 0 <= i < fs.len() ==> sc.has(#[trigger] fs[i]),
    ensures
        with_goals(t, a, fs, n, id) matches Some(b) ==> has_agenda(sc, b),
    decreases foralls_all(fs, n), fs, n,
{
    if n > 0 {
        lemma_foralls_member(fs, n, n - 1);
        if n > 1 {
            lemma_foralls_less(fs, n);
        }
        assert(sc.has(fs[n - 1]));
        lemma_goal_in(sc, t, a, fs[n - 1], id);
        if let Some(b) = with_goal(t, a, fs[n - 1], id) {
            lemma_goals_in(sc, t, b, fs, (n - 1) as nat, id);
        }
    }
}

/// What a goal in scope adds is in scope.
proof fn lemma_goal_in(sc: Scope, t: Typing, a: Agenda, f: FormulaView, id: usize)
    requires
        has_agenda(sc, a),
        sc.ids.contains(id),
        sc.has(f),
    ensures
        with_goal(t, a, f, id) matches Some(b) ==> has_agenda(sc, b),
    decreases foralls(f), f, 0nat,
{
    match f {
        FormulaView::Atom(_) | FormulaView::Negation(_) | FormulaView::Disjunction(_) => {
            lemma_push_opens(sc, a, OpenView { step_id: id, condition: f, when: crate::flaws::FormulaTime::AtStart });
        },
        FormulaView::Equality(l, li, r, ri) => {
            lemma_equation_in(sc, a, l, li, r, ri, id, true);
        },
        FormulaView::Inequality(l, li, r, ri) => {
            lemma_equation_in(sc, a, l, li, r, ri, id, false);
        },
        FormulaView::Conjunction(cs) => {
            lemma_goals_in(sc, t, a, cs, cs.len(), id);
        },
        FormulaView::Exists(_, body) => {
            lemma_goal_in(sc, t, a, *body, id);
        },
        FormulaView::Forall(params, body) => {
            lemma_base_foralls(t, params, *body, id);
            lemma_base_in(sc, t, params, *body, id);
            lemma_goal_in(sc, t, a, universal_base(t, params, *body, id), id);
        },
        _ => {},
    }
}

proof fn lemma_ground_in(sc: Scope, t: Typing, sets: Seq<Class>, terms: Seq<Term>, id: usize, objs: Seq<Term>, n: nat)
    requires
        sc.ids.contains(id),
        forall|i: int| 0 <= i < terms.len() ==> sc.has_term(#[trigger] terms[i]),
        n <= terms.len(),
    ensures
        sc.has_bindings(match_ground(t, sets, terms, id, objs, n).mgu),
    decreases n,
{
    if n > 0 {
        lemma_ground_in(sc, t, sets, terms, id, objs, (n - 1) as nat);
        assert(sc.has_term(terms[n - 1]));
    }
}

proof fn lemma_lifted_in(sc: Scope, t: Typing, ts1: Seq<Term>, id1: usize, ts2: Seq<Term>, id2: usize, n: nat)
    requires
        sc.ids.contains(id1),
        sc.ids.contains(id2),
        forall|i: int| 0 <= i < ts1.len() ==> sc.has_term(#[trigger] ts1[i]),
        forall|i: int| 0 <= i < ts2.len() ==> sc.has_term(#[trigger] ts2[i]),
        n <= ts1.len(),
        ts1.len() == ts2.len(),
    ensures
        sc.has_bindings(match_lifted(t, ts1, id1, ts2, id2, n).mgu),
    decreases n,
{
    if n > 0 {
        lemma_lifted_in(sc, t, ts1, id1, ts2, id2, (n - 1) as nat);
        assert(sc.has_term(ts1[n - 1]));
        assert(sc.has_term(ts2[n - 1]));
    }
}

/// A unifier of atoms in scope is in scope.
proof fn lemma_unifier_in(sc: Scope, t: Typing, sets: Seq<Class>, a1: AtomView, id1: usize, a2: AtomView, id2: usize)
    requires
        sc.ids.contains(id1),
        sc.ids.contains(id2),
        sc.has_atom(a1),
        sc.has_atom(a2),
    ensures
        sc.has_bindings(unifier(t, sets, a1, id1, a2, id2)),
{
    if same_head(a1, a2) && !(a1.ground() && a2.ground()) {
        if a1.ground() {
            lemma_ground_in(sc, t, sets, a2.terms, id2, a1.terms, a2.terms.len());
        } else if a2.ground() {
            lemma_ground_in(sc, t, sets, a1.terms, id1, a2.terms, a1.terms.len());
        } else {
            lemma_lifted_in(sc, t, a1.terms, id1, a2.terms, id2, a1.terms.len());
        }
    }
}

impl Scope {
    pub open spec fn has_class(self, c: Class) -> bool {
        forall|y: (Variable, usize)| #[trigger] c.members.contains(y) ==> self.ids.contains(y.1) && y.0.0 < self.limit
    }

    pub open spec fn has_classes(self, sets: Seq<Class>) -> bool {
        forall|i: int| 0 <= i < sets.len() ==> self.has_class(#[trigger] sets[i])
    }
}

proof fn lemma_front_in(sc: Scope, c: Class, sets: Seq<Class>)
    requires
        sc.has_class(c),
        sc.has_classes(sets),
    ensures
        sc.has_classes(seq![c] + sets),
{
    let all = seq![c] + sets;
    assert forall|i: int| 0 <= i < all.len() implies sc.has_class(#[trigger] all[i]) by {
        if i > 0 {
            assert(all[i] == sets[i - 1]);
        }
    }
}

proof fn lemma_made_in(sc: Scope, t: Typing, b: Binding, reverse: bool)
    requires
        sc.has_binding(b),
    ensures
        made(t, b, reverse) matches Some(c) ==> sc.has_class(c),
{
    if let Some(c) = made(t, b, reverse) {
        let var = (b.var, b.var_id);
        assert forall|y: (Variable, usize)| #[trigger] c.members.contains(y) implies sc.ids.contains(y.1) && y.0.0 < sc.limit by {
            lemma_pair_has(var, var, y);
            if let Term::Variable(tv) = b.term {
                lemma_pair_has((tv, b.term_id), var, y);
            }
        }
    }
}

proof fn lemma_with_var_in(sc: Scope, t: Typing, c: Class, v: Variable, id: usize)
    requires
        sc.has_class(c),
        sc.ids.contains(id),
        v.0 < sc.limit,
    ensures
        c.with_var(t, v, id) matches Some(d) ==> sc.has_class(d),
{
    if let Some(d) = c.with_var(t, v, id) {
        assert forall|y: (Variable, usize)| #[trigger] d.members.contains(y) implies sc.ids.contains(y.1) && y.0.0 < sc.limit by {
            lemma_cons_has((v, id), c.members, y);
        }
    }
}

proof fn lemma_term_class_in(sc: Scope, sets: Seq<Class>, term: Term, id: usize)
    requires
        sc.has_classes(sets),
    ensures
        term_class(sets, term, id) matches Some(j) ==> 0 <= j < sets.len() && sc.has_class(sets[j]),
{
    match term {
        Term::Object(o) => {
            lemma_found_object(sets, o);
        },
        Term::Variable(v) => {
            lemma_found_class(sets, (v, id));
        },
    }
}

/// A binding in scope gives classes in scope.
proof fn lemma_bound_in(sc: Scope, t: Typing, sets: Seq<Class>, b: Binding)
    requires
        sc.has_classes(sets),
        sc.has_binding(b),
    ensures
        bound(t, sets, b) matches Some(after) ==> sc.has_classes(after),
{
    let i = var_class(sets, (b.var, b.var_id));
    let j = term_class(sets, b.term, b.term_id);
    lemma_term_class_in(sc, sets, Term::Variable(b.var), b.var_id);
    lemma_term_class_in(sc, sets, b.term, b.term_id);
    lemma_made_in(sc, t, b, false);
    lemma_made_in(sc, t, b, true);
    if let Some(after) = bound(t, sets, b) {
        if b.equality {
            let c = equated(t, sets, b)->0;
            assert(sc.has_class(c)) by {
                match (i, j) {
                    (Some(k), Some(l)) => {
                        if k != l {
                            assert forall|y: (Variable, usize)| #[trigger] c.members.contains(y) implies sc.ids.contains(y.1) && y.0.0
                                < sc.limit by {
                                lemma_stacked(sets[l].members, sets[k].members, y);
                            }
                        }
                    },
                    (None, Some(l)) => {
                        lemma_with_var_in(sc, t, sets[l], b.var, b.var_id);
                    },
                    (Some(k), None) => {
                        if let Term::Variable(tv) = b.term {
                            lemma_with_var_in(sc, t, sets[k], tv, b.term_id);
                        }
                    },
                    _ => {},
                }
            }
            lemma_front_in(sc, c, sets);
        } else {
            let first = kept_from_term(t, sets, b);
            let mid = fronted(first, sets);
            if let Some(c) = first {
                assert(sc.has_class(c));
                lemma_front_in(sc, c, sets);
            }
            if let Some(c) = kept_from_var(t, sets, b) {
                assert(sc.has_class(c));
                lemma_front_in(sc, c, mid);
            }
        }
    }
}

proof fn lemma_bound_all_in(sc: Scope, t: Typing, sets: Seq<Class>, bs: Seq<Binding>)
    requires
        sc.has_classes(sets),
        sc.has_bindings(bs),
    ensures
        bound_all(t, sets, bs) matches Some(after) ==> sc.has_classes(after),
    decreases bs.len(),
{
    if bs.len() > 0 {
        let front = bs.drop_last();
        assert forall|i: int| 0 <= i < front.len() implies sc.has_binding(#[trigger] front[i]) by {
            assert(front[i] == bs[i]);
        }
        assert(sc.has_binding(bs[bs.len() - 1]));
        lemma_bound_all_in(sc, t, sets, front);
        if let Some(mid) = bound_all(t, sets, front) {
            lemma_bound_in(sc, t, mid, bs.last());
        }
    }
}

impl Scope {
    pub open spec fn has_effect(self, e: EffectView) -> bool {
        self.has(e.condition) && self.has(e.link_condition) && self.has_atom(e.literal.atom)
    }

    pub open spec fn has_action(self, a: StepActionView) -> bool {
        self.has(a.precondition) && forall|k: int| 0 <= k < a.effects.len() ==> self.has_effect(#[trigger] a.effects[k])
    }

    pub open spec fn has_link(self, l: LinkView) -> bool {
        self.ids.contains(l.from_id) && self.ids.contains(l.to_id) && self.has_atom(l.condition.atom)
    }

    pub open spec fn has_links(self, ls: Seq<LinkView>) -> bool {
        forall|i: int| 0 <= i < ls.len() ==> self.has_link(#[trigger] ls[i])
    }

    pub open spec fn has_unsafe(self, u: UnsafeView) -> bool {
        self.has_link(u.link) && self.ids.contains(u.step_id) && self.has_effect(u.effect)
    }

    pub open spec fn has_unsafes(self, us: Seq<UnsafeView>) -> bool {
        forall|i: int| 0 <= i < us.len() ==> self.has_unsafe(#[trigger] us[i])
    }

    pub open spec fn has_steps(self, steps: Seq<StepView>) -> bool {
        forall|i: int| 0 <= i < steps.len() ==> self.ids.contains((#[trigger] steps[i]).id) && self.has_action(steps[i].action)
    }
}

/// The scope of a plan with some steps and fresh variables.
pub open spec fn scope_at(cv: ContextView, steps: Seq<StepView>, fresh: Seq<Type>) -> Scope {
    Scope {
        limit: cv.fresh_base + fresh.len(),
        ids: Set::new(|id: usize| exists|i: int| 0 <= i < steps.len() && (#[trigger] steps[i]).id == id),
    }
}

/// Whether all that a plan holds is in its scope, and its steps are numbered.
pub open spec fn is_scoped(cv: ContextView, p: PlanView) -> bool {
    let sc = scope_at(cv, p.steps, p.fresh);
    &&& sc.ids.contains(INIT_ID)
    &&& forall|i: int| 0 <= i < p.steps.len() ==> (#[trigger] p.steps[i]).id <= p.num_steps || p.steps[i].id == GOAL_ID
    &&& sc.has_steps(p.steps)
    &&& sc.has_opens(p.opens)
    &&& sc.has_links(p.links)
    &&& sc.has_unsafes(p.unsafes)
    &&& sc.has_classes(p.classes)
}

/// Whether the actions of a task speak of their own variables, at no step.
pub open spec fn is_closed(cv: ContextView) -> bool {
    let sc = Scope { limit: cv.fresh_base, ids: Set::empty() };
    &&& sc.has_action(cv.init)
    &&& sc.has_action(cv.goal)
    &&& forall|i: int| 0 <= i < cv.actions.len() ==> sc.has_action(#[trigger] cv.actions[i])
}

proof fn lemma_wider_effect(sc: Scope, wide: Scope, e: EffectView)
    requires
        sc.below(wide),
        sc.has_effect(e),
    ensures
        wide.has_effect(e),
{
    lemma_wider(sc, wide, e.condition);
    lemma_wider(sc, wide, e.link_condition);
}

proof fn lemma_wider_action(sc: Scope, wide: Scope, a: StepActionView)
    requires
        sc.below(wide),
        sc.has_action(a),
    ensures
        wide.has_action(a),
{
    lemma_wider(sc, wide, a.precondition);
    assert forall|k: int| 0 <= k < a.effects.len() implies wide.has_effect(#[trigger] a.effects[k]) by {
        lemma_wider_effect(sc, wide, a.effects[k]);
    }
}

/// What is in scope stays so in a wider one.
proof fn lemma_wider_plan(sc: Scope, wide: Scope, p: PlanView)
    requires
        sc.below(wide),
        sc.has_steps(p.steps),
        sc.has_opens(p.opens),
        sc.has_links(p.links),
        sc.has_unsafes(p.unsafes),
        sc.has_classes(p.classes),
    ensures
        wide.has_steps(p.steps),
        wide.has_opens(p.opens),
        wide.has_links(p.links),
        wide.has_unsafes(p.unsafes),
        wide.has_classes(p.classes),
{
    assert forall|i: int| 0 <= i < p.steps.len() implies wide.ids.contains((#[trigger] p.steps[i]).id) && wide.has_action(p.steps[i].action) by {
        lemma_wider_action(sc, wide, p.steps[i].action);
    }
    assert forall|i: int| 0 <= i < p.opens.len() implies wide.has_open(#[trigger] p.opens[i]) by {
        assert(sc.has_open(p.opens[i]));
        lemma_wider(sc, wide, p.opens[i].condition);
    }
    assert forall|i: int| 0 <= i < p.links.len() implies wide.has_link(#[trigger] p.links[i]) by {
        assert(sc.has_link(p.links[i]));
    }
    assert forall|i: int| 0 <= i < p.unsafes.len() implies wide.has_unsafe(#[trigger] p.unsafes[i]) by {
        assert(sc.has_unsafe(p.unsafes[i]));
        lemma_wider_effect(sc, wide, p.unsafes[i].effect);
    }
    assert forall|i: int| 0 <= i < p.classes.len() implies wide.has_class(#[trigger] p.classes[i]) by {
        assert(sc.has_class(p.classes[i]));
    }
}

proof fn lemma_removed_opens(sc: Scope, os: Seq<OpenView>, o: OpenView)
    requires
        sc.has_opens(os),
    ensures
        sc.has_opens(removed(os, o)),
    decreases os.len(),
{
    if os.len() > 0 {
        let rest = os.drop_first();
        assert forall|i: int| 0 <= i < rest.len() implies sc.has_open(#[trigger] rest[i]) by {
            assert(rest[i] == os[i + 1]);
        }
        lemma_removed_opens(sc, rest, o);
        assert(sc.has_open(os[0]));
        let r = removed(os, o);
        assert forall|i: int| 0 <= i < r.len() implies sc.has_open(#[trigger] r[i]) by {
            if os[0] == o {
                assert(r[i] == rest[i]);
            } else if i > 0 {
                assert(r[i] == removed(rest, o)[i - 1]);
            }
        }
    }
}

proof fn lemma_removed_unsafes(sc: Scope, us: Seq<UnsafeView>, u: UnsafeView)
    requires
        sc.has_unsafes(us),
    ensures
        sc.has_unsafes(removed(us, u)),
    decreases us.len(),
{
    if us.len() > 0 {
        let rest = us.drop_first();
        assert forall|i: int| 0 <= i < rest.len() implies sc.has_unsafe(#[trigger] rest[i]) by {
            assert(rest[i] == us[i + 1]);
        }
        lemma_removed_unsafes(sc, rest, u);
        assert(sc.has_unsafe(us[0]));
        let r = removed(us, u);
        assert forall|i: int| 0 <= i < r.len() implies sc.has_unsafe(#[trigger] r[i]) by {
            if us[0] == u {
                assert(r[i] == rest[i]);
            } else if i > 0 {
                assert(r[i] == removed(rest, u)[i - 1]);
            }
        }
    }
}

proof fn lemma_unsafes_join(sc: Scope, a: Seq<UnsafeView>, b: Seq<UnsafeView>)
    requires
        sc.has_unsafes(a),
        sc.has_unsafes(b),
    ensures
        sc.has_unsafes(a + b),
{
    let ab = a + b;
    assert forall|i: int| 0 <= i < ab.len() implies sc.has_unsafe(#[trigger] ab[i]) by {
        if i < a.len() {
            assert(ab[i] == a[i]);
        } else {
            assert(ab[i] == b[i - a.len()]);
        }
    }
}

proof fn lemma_effect_threats_in(sc: Scope, t: Typing, sets: Seq<Class>, order: Set<(int, int)>, link: LinkView, s: StepView, n: nat)
    requires
        sc.has_link(link),
        sc.ids.contains(s.id),
        sc.has_action(s.action),
        n <= s.action.effects.len(),
    ensures
        sc.has_unsafes(effect_threats(t, sets, order, link, s, n)),
    decreases n,
{
    if n > 0 {
        lemma_effect_threats_in(sc, t, sets, order, link, s, (n - 1) as nat);
        let e = s.action.effects[n - 1];
        assert(sc.has_effect(e));
        let one = seq![UnsafeView { link, step_id: s.id, effect: e }];
        lemma_unsafes_join(sc, one, effect_threats(t, sets, order, link, s, (n - 1) as nat));
    }
}

proof fn lemma_threats_to_in(sc: Scope, t: Typing, sets: Seq<Class>, order: Set<(int, int)>, link: LinkView, steps: Seq<StepView>, n: nat)
    requires
        sc.has_link(link),
        sc.has_steps(steps),
        n <= steps.len(),
    ensures
        sc.has_unsafes(threats_to(t, sets, order, link, steps, n)),
    decreases n,
{
    if n > 0 {
        let s = steps[n - 1];
        lemma_threats_to_in(sc, t, sets, order, link, steps, (n - 1) as nat);
        lemma_effect_threats_in(sc, t, sets, order, link, s, s.action.effects.len());
        lemma_unsafes_join(
            sc,
            effect_threats(t, sets, order, link, s, s.action.effects.len()),
            threats_to(t, sets, order, link, steps, (n - 1) as nat),
        );
    }
}

proof fn lemma_threats_by_in(sc: Scope, t: Typing, sets: Seq<Class>, order: Set<(int, int)>, links: Seq<LinkView>, s: StepView, n: nat)
    requires
        sc.has_links(links),
        sc.ids.contains(s.id),
        sc.has_action(s.action),
        n <= links.len(),
    ensures
        sc.has_unsafes(threats_by(t, sets, order, links, s, n)),
    decreases n,
{
    if n > 0 {
        lemma_threats_by_in(sc, t, sets, order, links, s, (n - 1) as nat);
        assert(sc.has_link(links[n - 1]));
        lemma_effect_threats_in(sc, t, sets, order, links[n - 1], s, s.action.effects.len());
        lemma_unsafes_join(
            sc,
            effect_threats(t, sets, order, links[n - 1], s, s.action.effects.len()),
            threats_by(t, sets, order, links, s, (n - 1) as nat),
        );
    }
}

/// Whether the names of a renaming are fresh variables that it has made.
spec fn has_names(cv: ContextView, r: Renaming) -> bool {
    cv.fresh_base + r.fresh.len() <= u32::MAX ==> (Scope { limit: cv.fresh_base + r.fresh.len(), ids: Set::empty() }).has_subst(r.subst)
}

proof fn lemma_name_in(cv: ContextView, vars: StepTypesView, r: Renaming, v: Variable, id: usize)
    requires
        has_names(cv, r),
    ensures
        has_names(cv, with_name(cv, vars, r, v, id)),
        with_name(cv, vars, r, v, id).fresh.len() >= r.fresh.len(),
{
    let s = with_name(cv, vars, r, v, id);
    if lookup(r.subst, v) is None && cv.fresh_base + s.fresh.len() <= u32::MAX {
        let sc = Scope { limit: cv.fresh_base + s.fresh.len(), ids: Set::empty() };
        let small = Scope { limit: cv.fresh_base + r.fresh.len(), ids: Set::empty() };
        assert forall|i: int| 0 <= i < s.subst.len() implies sc.has_term((#[trigger] s.subst[i]).1) by {
            if i < r.subst.len() {
                assert(small.has_term(r.subst[i].1));
            }
        }
    }
}

proof fn lemma_names_in(cv: ContextView, vars: StepTypesView, r: Renaming, ps: Seq<Variable>, id: usize, n: nat)
    requires
        has_names(cv, r),
    ensures
        has_names(cv, with_names(cv, vars, r, ps, id, n)),
        with_names(cv, vars, r, ps, id, n).fresh.len() >= r.fresh.len(),
    decreases n,
{
    if n > 0 {
        lemma_names_in(cv, vars, r, ps, id, (n - 1) as nat);
        lemma_name_in(cv, vars, with_names(cv, vars, r, ps, id, (n - 1) as nat), ps[n - 1], id);
    }
}

proof fn lemma_names_for_in(cv: ContextView, vars: StepTypesView, r: Renaming, e: EffectView, id: usize, u: Seq<Binding>, n: nat)
    requires
        has_names(cv, r),
    ensures
        has_names(cv, names_for(cv, vars, r, e, id, u, n)),
        names_for(cv, vars, r, e, id, u, n).fresh.len() >= r.fresh.len(),
    decreases n,
{
    if n > 0 {
        lemma_names_for_in(cv, vars, r, e, id, u, (n - 1) as nat);
        lemma_name_in(cv, vars, names_for(cv, vars, r, e, id, u, (n - 1) as nat), u[n - 1].var, id);
    }
}

proof fn lemma_parted_in(sc: Scope, u: Seq<Binding>, n: nat)
    requires
        sc.has_bindings(u),
        n <= u.len(),
    ensures
        sc.has(some_parted(u, n)),
    decreases n,
{
    if n > 0 {
        lemma_parted_in(sc, u, (n - 1) as nat);
        assert(sc.has_binding(u[n - 1]));
        lemma_both_in(sc, some_parted(u, (n - 1) as nat), parting(u[n - 1]));
    }
}

proof fn lemma_separated_in(sc: Scope, p: PlanView, u: UnsafeView, bs: Seq<Binding>, n: nat)
    requires
        sc.has_bindings(bs),
        n <= bs.len(),
    ensures
        sc.has(some_separated(p, u, bs, n)),
    decreases n,
{
    if n > 0 {
        lemma_separated_in(sc, p, u, bs, (n - 1) as nat);
        assert(sc.has_binding(bs[n - 1]));
        lemma_both_in(sc, some_separated(p, u, bs, (n - 1) as nat), parting(bs[n - 1]));
    }
}

proof fn lemma_absence_in(sc: Scope, t: Typing, sets: Seq<Class>, facts: Seq<EffectView>, atom: AtomView, id: usize, n: nat)
    requires
        sc.ids.contains(INIT_ID),
        sc.ids.contains(id),
        sc.has_atom(atom),
        forall|k: int| 0 <= k < facts.len() ==> sc.has_effect(#[trigger] facts[k]),
        n <= facts.len(),
    ensures
        absence(t, sets, facts, atom, id, n) matches Some(f) ==> sc.has(f),
    decreases n,
{
    if n > 0 {
        lemma_absence_in(sc, t, sets, facts, atom, id, (n - 1) as nat);
        assert(sc.has_effect(facts[n - 1]));
        let l = facts[n - 1].literal;
        let u = unifier(t, sets, l.atom, INIT_ID, atom, id);
        lemma_unifier_in(sc, t, sets, l.atom, INIT_ID, atom, id);
        lemma_parted_in(sc, u, u.len());
        if let Some(f) = absence(t, sets, facts, atom, id, (n - 1) as nat) {
            lemma_both_in(sc, f, some_parted(u, u.len()));
        }
    }
}

/// A goal in scope gives a plan with all in scope.
proof fn lemma_goal_plan_scoped(cv: ContextView, q: PlanView, opens: Seq<OpenView>, goal: FormulaView, id: usize)
    requires
        is_scoped(cv, PlanView { opens, ..q }),
        scope_at(cv, q.steps, q.fresh).has(goal),
        scope_at(cv, q.steps, q.fresh).ids.contains(id),
    ensures
        goal_plan(cv, q, opens, goal, id) matches Some(c) ==> is_scoped(cv, c),
{
    let sc = scope_at(cv, q.steps, q.fresh);
    let t = q.typing(cv);
    let start = Agenda { opens, binds: seq![] };
    lemma_goal_in(sc, t, start, goal, id);
    if let Some(a) = with_goal(t, start, goal, id) {
        lemma_bound_all_in(sc, t, q.classes, a.binds);
    }
}

proof fn lemma_named_in(sc: Scope, e: EffectView, id: usize, subst: Seq<(Variable, Term)>, u: Seq<Binding>)
    requires
        sc.has_bindings(u),
        sc.has_subst(subst),
    ensures
        sc.has_bindings(named_all(e, id, subst, u, u.len())),
{
    let bs = named_all(e, id, subst, u, u.len());
    assert forall|i: int| 0 <= i < bs.len() implies sc.has_binding(#[trigger] bs[i]) by {
        assert(sc.has_binding(u[i]));
        lemma_lookup_in(sc, subst, u[i].var);
    }
}

proof fn lemma_link_scoped(cv: ContextView, p: PlanView, s: StepView, is_new: bool, k: int, oc: OpenView)
    requires
        is_scoped(cv, p),
        scope_at(cv, p.steps, p.fresh).has_open(oc),
        oc.as_literal() is Some,
        0 <= k < s.action.effects.len(),
        is_new ==> s.id == p.num_steps + 1 && (Scope { limit: cv.fresh_base, ids: Set::empty() }).has_action(s.action),
        !is_new ==> scope_at(cv, p.steps, p.fresh).ids.contains(s.id) && scope_at(cv, p.steps, p.fresh).has_action(s.action),
    ensures
        link_child(cv, p, s, is_new, k, oc) matches Some(c) ==> is_scoped(cv, c),
{
    if let Some(c) = link_child(cv, p, s, is_new, k, oc) {
        let steps = if is_new {
            seq![s] + p.steps
        } else {
            p.steps
        };
        let e = s.action.effects[k];
        let l = oc.as_literal()->0;
        let vars = types_at(cv, steps, p.fresh);
        let u = unifier(cv.typing(vars), p.classes, e.literal.atom, s.id, l.atom, oc.step_id);
        let r = link_names(cv, p, steps, s, e, u);
        let t = cv.typing(types_at(cv, steps, r.fresh));
        let sc = scope_at(cv, p.steps, p.fresh);
        let wide = scope_at(cv, steps, r.fresh);
        let first = Renaming { subst: seq![], fresh: p.fresh };
        lemma_names_for_in(cv, vars, first, e, s.id, u, u.len());
        lemma_names_in(cv, vars, names_for(cv, vars, first, e, s.id, u, u.len()), e.parameters, s.id, e.parameters.len());
        assert(sc.ids.subset_of(wide.ids)) by {
            assert forall|id: usize| sc.ids.contains(id) implies #[trigger] wide.ids.contains(id) by {
                let i = choose|i: int| 0 <= i < p.steps.len() && (#[trigger] p.steps[i]).id == id;
                if is_new {
                    assert(steps[i + 1].id == id);
                } else {
                    assert(steps[i].id == id);
                }
            }
        }
        assert(sc.below(wide));
        lemma_wider_plan(sc, wide, p);
        if is_new {
            assert(steps[0] == s);
            lemma_wider_action(Scope { limit: cv.fresh_base, ids: Set::empty() }, wide, s.action);
        } else {
            lemma_wider_action(sc, wide, s.action);
        }
        assert(wide.ids.contains(s.id));
        assert(wide.has_effect(e));
        assert(wide.has_open(oc)) by {
            lemma_wider(sc, wide, oc.condition);
        }
        assert(wide.has_atom(l.atom));
        lemma_unifier_in(wide, cv.typing(vars), p.classes, e.literal.atom, s.id, l.atom, oc.step_id);
        assert(wide.has_subst(r.subst)) by {
            let small = Scope { limit: cv.fresh_base + r.fresh.len(), ids: Set::empty() };
            assert forall|i: int| 0 <= i < r.subst.len() implies wide.has_term((#[trigger] r.subst[i]).1) by {
                assert(small.has_term(r.subst[i].1));
            }
        }
        lemma_named_in(wide, e, s.id, r.subst, u);
        lemma_removed_opens(wide, p.opens, oc);
        let start = Agenda { opens: removed(p.opens, oc), binds: named_all(e, s.id, r.subst, u, u.len()) };
        let goal = put(link_goal(e), r.subst);
        lemma_both_in(wide, e.condition, e.link_condition);
        lemma_put_in(wide, link_goal(e), r.subst);
        lemma_goal_in(wide, t, start, goal, s.id);
        let a = with_goal(t, start, goal, s.id)->0;
        if is_new {
            lemma_goal_in(wide, t, a, s.action.precondition, s.id);
        }
        let last = link_agenda(t, p, s, is_new, e, oc, u, r.subst)->0;
        lemma_bound_all_in(wide, t, p.classes, last.binds);
        let link = c.links[0];
        assert(wide.has_link(link));
        assert forall|i: int| 0 <= i < c.links.len() implies wide.has_link(#[trigger] c.links[i]) by {
            if i > 0 {
                assert(c.links[i] == p.links[i - 1]);
            }
        }
        assert(wide.has_steps(steps)) by {
            assert forall|i: int| 0 <= i < steps.len() implies wide.ids.contains((#[trigger] steps[i]).id) && wide.has_action(steps[i].action) by {
                if is_new && i > 0 {
                    assert(steps[i] == p.steps[i - 1]);
                }
            }
        }
        let to_link = threats_to(t, c.classes, c.order, link, steps, steps.len());
        lemma_threats_to_in(wide, t, c.classes, c.order, link, steps, steps.len());
        lemma_unsafes_join(wide, to_link, p.unsafes);
        if is_new {
            lemma_threats_by_in(wide, t, c.classes, c.order, p.links, s, p.links.len());
            lemma_unsafes_join(wide, threats_by(t, c.classes, c.order, p.links, s, p.links.len()), to_link + p.unsafes);
        }
        assert forall|i: int| 0 <= i < steps.len() implies (#[trigger] steps[i]).id <= c.num_steps || steps[i].id == GOAL_ID by {
            if is_new && i > 0 {
                assert(steps[i] == p.steps[i - 1]);
            }
        }
    }
}

proof fn lemma_effects_for(a: StepActionView, l: LiteralView, n: nat)
    requires
        n <= a.effects.len(),
    ensures
        forall|i: int|
            0 <= i < effects_for(a, l, n).len() ==> (#[trigger] effects_for(a, l, n)[i]).0 == a && 0 <= effects_for(a, l, n)[i].1
                < a.effects.len(),
    decreases n,
{
    if n > 0 {
        lemma_effects_for(a, l, (n - 1) as nat);
        let rest = effects_for(a, l, (n - 1) as nat);
        let all = effects_for(a, l, n);
        assert forall|i: int| 0 <= i < all.len() implies (#[trigger] all[i]).0 == a && 0 <= all[i].1 < a.effects.len() by {
            if i < rest.len() {
                assert(all[i] == rest[i]);
            }
        }
    }
}

/// Whether the pairs are actions in scope with one of their effects.
spec fn are_achievers(sc: Scope, list: Seq<(StepActionView, int)>) -> bool {
    forall|i: int| 0 <= i < list.len() ==> sc.has_action((#[trigger] list[i]).0) && 0 <= list[i].1 < list[i].0.effects.len()
}

proof fn lemma_effects_among(sc: Scope, actions: Seq<StepActionView>, l: LiteralView, n: nat)
    requires
        n <= actions.len(),
        forall|i: int| 0 <= i < actions.len() ==> sc.has_action(#[trigger] actions[i]),
    ensures
        are_achievers(sc, effects_among(actions, l, n)),
    decreases n,
{
    if n > 0 {
        lemma_effects_among(sc, actions, l, (n - 1) as nat);
        let a = actions[n - 1];
        lemma_effects_for(a, l, a.effects.len());
        let front = effects_among(actions, l, (n - 1) as nat);
        let back = effects_for(a, l, a.effects.len());
        let all = front + back;
        assert forall|i: int| 0 <= i < all.len() implies sc.has_action((#[trigger] all[i]).0) && 0 <= all[i].1 < all[i].0.effects.len() by {
            if i < front.len() {
                assert(all[i] == front[i]);
            } else {
                assert(all[i] == back[i - front.len()]);
            }
        }
    }
}

proof fn lemma_achievers_in(cv: ContextView, l: LiteralView)
    requires
        is_closed(cv),
    ensures
        are_achievers(Scope { limit: cv.fresh_base, ids: Set::empty() }, cv.achievers(l)),
{
    let sc = Scope { limit: cv.fresh_base, ids: Set::empty() };
    lemma_effects_for(cv.init, l, cv.init.effects.len());
    lemma_effects_among(sc, cv.actions, l, cv.actions.len());
    let front = effects_for(cv.init, l, cv.init.effects.len());
    let back = effects_among(cv.actions, l, cv.actions.len());
    let all = front + back;
    assert forall|i: int| 0 <= i < all.len() implies sc.has_action((#[trigger] all[i]).0) && 0 <= all[i].1 < all[i].0.effects.len() by {
        if i < front.len() {
            assert(all[i] == front[i]);
        } else {
            assert(all[i] == back[i - front.len()]);
        }
    }
}

pub open spec fn all_scoped(cv: ContextView, plans: Seq<PlanView>) -> bool {
    forall|i: int| 0 <= i < plans.len() ==> is_scoped(cv, #[trigger] plans[i])
}

proof fn lemma_appended_scoped(cv: ContextView, plans: Seq<PlanView>, child: Option<PlanView>)
    requires
        all_scoped(cv, plans),
        child matches Some(c) ==> is_scoped(cv, c),
    ensures
        all_scoped(cv, appended(plans, child)),
{
    let more = appended(plans, child);
    assert forall|i: int| 0 <= i < more.len() implies is_scoped(cv, #[trigger] more[i]) by {
        if i < plans.len() {
            assert(more[i] == plans[i]);
        }
    }
}

proof fn lemma_joined_scoped(cv: ContextView, a: Seq<PlanView>, b: Seq<PlanView>)
    requires
        all_scoped(cv, a),
        all_scoped(cv, b),
    ensures
        all_scoped(cv, a + b),
{
    let ab = a + b;
    assert forall|i: int| 0 <= i < ab.len() implies is_scoped(cv, #[trigger] ab[i]) by {
        if i < a.len() {
            assert(ab[i] == a[i]);
        } else {
            assert(ab[i] == b[i - a.len()]);
        }
    }
}

/// Whether a literal of the plan may be resolved: it is one of the plan's, and there is
/// room for one more step.
spec fn is_ready(cv: ContextView, p: PlanView, oc: OpenView, achievers: Seq<(StepActionView, int)>) -> bool {
    &&& is_scoped(cv, p)
    &&& p.num_steps + 1 < usize::MAX
    &&& scope_at(cv, p.steps, p.fresh).has_open(oc)
    &&& oc.as_literal() is Some
    &&& are_achievers(Scope { limit: cv.fresh_base, ids: Set::empty() }, achievers)
}

proof fn lemma_new_steps_scoped(cv: ContextView, p: PlanView, oc: OpenView, achievers: Seq<(StepActionView, int)>, n: nat)
    requires
        is_ready(cv, p, oc, achievers),
        n <= achievers.len(),
    ensures
        all_scoped(cv, new_step_plans(cv, p, oc, achievers, n)),
    decreases n,
{
    if n > 0 {
        lemma_new_steps_scoped(cv, p, oc, achievers, (n - 1) as nat);
        let (a, k) = achievers[n - 1];
        assert(achievers[n - 1].0 == a);
        let s = StepView { id: (p.num_steps + 1) as usize, action: a };
        lemma_link_scoped(cv, p, s, true, k, oc);
        lemma_appended_scoped(cv, new_step_plans(cv, p, oc, achievers, (n - 1) as nat), link_child(cv, p, s, true, k, oc));
    }
}

proof fn lemma_reuse_by_step_scoped(cv: ContextView, p: PlanView, oc: OpenView, s: StepView, achievers: Seq<(StepActionView, int)>, n: nat)
    requires
        is_ready(cv, p, oc, achievers),
        scope_at(cv, p.steps, p.fresh).ids.contains(s.id),
        scope_at(cv, p.steps, p.fresh).has_action(s.action),
        n <= achievers.len(),
    ensures
        all_scoped(cv, reuse_by_step(cv, p, oc, s, achievers, n)),
    decreases n,
{
    if n > 0 {
        lemma_reuse_by_step_scoped(cv, p, oc, s, achievers, (n - 1) as nat);
        let (a, k) = achievers[n - 1];
        assert(achievers[n - 1].0 == a);
        if k < s.action.effects.len() {
            lemma_link_scoped(cv, p, s, false, k, oc);
            lemma_appended_scoped(cv, reuse_by_step(cv, p, oc, s, achievers, (n - 1) as nat), link_child(cv, p, s, false, k, oc));
        }
    }
}

proof fn lemma_reuse_scoped(cv: ContextView, p: PlanView, oc: OpenView, achievers: Seq<(StepActionView, int)>, n: nat)
    requires
        is_ready(cv, p, oc, achievers),
        n <= p.steps.len(),
    ensures
        all_scoped(cv, reuse_plans(cv, p, oc, achievers, n)),
    decreases n,
{
    if n > 0 {
        lemma_reuse_scoped(cv, p, oc, achievers, (n - 1) as nat);
        let s = p.steps[n - 1];
        assert(scope_at(cv, p.steps, p.fresh).has_action(s.action));
        lemma_reuse_by_step_scoped(cv, p, oc, s, achievers, achievers.len());
        lemma_joined_scoped(
            cv,
            reuse_plans(cv, p, oc, achievers, (n - 1) as nat),
            reuse_by_step(cv, p, oc, s, achievers, achievers.len()),
        );
    }
}

proof fn lemma_absence_scoped(cv: ContextView, p: PlanView, oc: OpenView)
    requires
        is_closed(cv),
        is_scoped(cv, p),
        scope_at(cv, p.steps, p.fresh).has_open(oc),
        oc.as_literal() is Some,
    ensures
        absence_plan(cv, p, oc) matches Some(c) ==> is_scoped(cv, c),
{
    if let Some(c) = absence_plan(cv, p, oc) {
        let sc = scope_at(cv, p.steps, p.fresh);
        let t = p.typing(cv);
        let l = oc.as_literal()->0;
        let facts = cv.init.effects;
        lemma_wider_action(Scope { limit: cv.fresh_base, ids: Set::empty() }, sc, cv.init);
        lemma_absence_in(sc, t, p.classes, facts, l.atom, oc.step_id, facts.len());
        let goal = absence(t, p.classes, facts, l.atom, oc.step_id, facts.len())->0;
        lemma_removed_opens(sc, p.opens, oc);
        let start = Agenda { opens: removed(p.opens, oc), binds: seq![] };
        lemma_goal_in(sc, t, start, goal, INIT_ID);
        let a = with_goal(t, start, goal, INIT_ID)->0;
        lemma_bound_all_in(sc, t, p.classes, a.binds);
        let link = c.links[0];
        assert(sc.has_link(link));
        assert forall|i: int| 0 <= i < c.links.len() implies sc.has_link(#[trigger] c.links[i]) by {
            if i > 0 {
                assert(c.links[i] == p.links[i - 1]);
            }
        }
        lemma_threats_to_in(sc, t, c.classes, p.order, link, p.steps, p.steps.len());
        lemma_unsafes_join(sc, threats_to(t, c.classes, p.order, link, p.steps, p.steps.len()), p.unsafes);
    }
}

proof fn lemma_disjunct_in(sc: Scope, f: FormulaView, i: int)
    requires
        sc.has(f),
        f matches FormulaView::Disjunction(ds) && 0 <= i < ds.len(),
    ensures
        f matches FormulaView::Disjunction(ds) && sc.has(ds[i]),
{
    match f {
        FormulaView::Disjunction(ds) => {
            assert(sc.has(ds[i]));
        },
        _ => {},
    }
}

proof fn lemma_disjuncts_scoped(cv: ContextView, p: PlanView, oc: OpenView, ds: Seq<FormulaView>, n: nat)
    requires
        is_scoped(cv, p),
        scope_at(cv, p.steps, p.fresh).has_open(oc),
        oc.condition == FormulaView::Disjunction(ds),
        n <= ds.len(),
    ensures
        all_scoped(cv, disjunct_plans(cv, p, oc, ds, n)),
    decreases n,
{
    if n > 0 {
        lemma_disjuncts_scoped(cv, p, oc, ds, (n - 1) as nat);
        let sc = scope_at(cv, p.steps, p.fresh);
        let opens = removed(p.opens, oc);
        lemma_removed_opens(sc, p.opens, oc);
        lemma_disjunct_in(sc, oc.condition, n - 1);
        lemma_goal_plan_scoped(cv, p, opens, ds[n - 1], oc.step_id);
        lemma_appended_scoped(cv, disjunct_plans(cv, p, oc, ds, (n - 1) as nat), goal_plan(cv, p, opens, ds[n - 1], oc.step_id));
    }
}

proof fn lemma_objects_scoped(cv: ContextView, p: PlanView, oc: OpenView, v: Variable, w: Variable, os: Seq<Object>, n: nat)
    requires
        is_scoped(cv, p),
        scope_at(cv, p.steps, p.fresh).has_open(oc),
        v.0 < cv.fresh_base + p.fresh.len(),
        w.0 < cv.fresh_base + p.fresh.len(),
        n <= os.len(),
    ensures
        all_scoped(cv, object_plans(cv, p, oc, v, w, os, n)),
    decreases n,
{
    if n > 0 {
        lemma_objects_scoped(cv, p, oc, v, w, os, (n - 1) as nat);
        let sc = scope_at(cv, p.steps, p.fresh);
        let o = Term::Object(os[n - 1]);
        let bs = seq![
            Binding { var: v, var_id: oc.step_id, term: o, term_id: 0, equality: true },
            Binding { var: w, var_id: oc.step_id, term: o, term_id: 0, equality: false },
        ];
        lemma_removed_opens(sc, p.opens, oc);
        lemma_bound_all_in(sc, p.typing(cv), p.classes, bs);
        lemma_appended_scoped(cv, object_plans(cv, p, oc, v, w, os, (n - 1) as nat), object_plan(cv, p, oc, v, w, os[n - 1]));
    }
}

proof fn lemma_separated_scoped(cv: ContextView, p: PlanView, u: UnsafeView)
    requires
        is_scoped(cv, p),
        scope_at(cv, p.steps, p.fresh).has_unsafe(u),
    ensures
        separated_plan(cv, p, u) matches Some(c) ==> is_scoped(cv, c),
{
    let r = separation_names(cv, p, u);
    if cv.fresh_base + r.fresh.len() <= u32::MAX {
        let sc = scope_at(cv, p.steps, p.fresh);
        let wide = scope_at(cv, p.steps, r.fresh);
        let vars = types_at(cv, p.steps, p.fresh);
        let first = Renaming { subst: seq![], fresh: p.fresh };
        lemma_names_in(cv, vars, first, u.effect.parameters, u.step_id, u.effect.parameters.len());
        assert(sc.below(wide));
        lemma_wider_plan(sc, wide, p);
        lemma_wider_effect(sc, wide, u.effect);
        let bs = threat_unifier(cv, p, u);
        lemma_unifier_in(wide, p.typing(cv), p.classes, u.link.condition.atom, u.link.to_id, u.effect.literal.atom, u.step_id);
        lemma_separated_in(wide, p, u, bs, bs.len());
        assert(wide.has_subst(r.subst)) by {
            let small = Scope { limit: cv.fresh_base + r.fresh.len(), ids: Set::empty() };
            assert forall|i: int| 0 <= i < r.subst.len() implies wide.has_term((#[trigger] r.subst[i]).1) by {
                assert(small.has_term(r.subst[i].1));
            }
        }
        let apart = some_separated(p, u, bs, bs.len());
        let cond = u.effect.condition;
        lemma_put_in(wide, cond, r.subst);
        lemma_negated_in(wide, cond);
        lemma_negated_in(wide, put(cond, r.subst));
        lemma_both_in(wide, apart, negated(cond));
        let params = Seq::new(u.effect.parameters.len(), |i: int| name_of(r.subst, u.effect.parameters[i]));
        let all = FormulaView::Forall(params, Box::new(negated(put(cond, r.subst))));
        lemma_both_in(wide, apart, all);
        lemma_removed_unsafes(wide, p.unsafes, u);
        let q = PlanView { unsafes: removed(p.unsafes, u), fresh: r.fresh, ..p };
        lemma_goal_plan_scoped(cv, q, p.opens, separation(p, u, bs, r), u.step_id);
    }
}

/// The first plan holds only what is in its scope, and so do all refinements of such a
/// plan by one of its flaws, where there is room to number another step.
pub proof fn plans_stay_in_scope(cv: ContextView, p: PlanView, flaw: FlawView)
    requires
        is_closed(cv),
    ensures
        first_plan(cv) matches Some(q) ==> is_scoped(cv, q),
        is_scoped(cv, p) && is_flaw_of(p, flaw) && p.num_steps + 1 < usize::MAX ==> all_scoped(cv, flaw_plans(cv, p, flaw)),
{
    lemma_first_scoped(cv);
    if is_scoped(cv, p) && is_flaw_of(p, flaw) && p.num_steps + 1 < usize::MAX {
        let sc = scope_at(cv, p.steps, p.fresh);
        match flaw {
            FlawView::Unsafe(u) => {
                let at = choose|i: int| 0 <= i < p.unsafes.len() && p.unsafes[i] == u;
                assert(sc.has_unsafe(p.unsafes[at]));
                lemma_separated_scoped(cv, p, u);
                lemma_removed_unsafes(sc, p.unsafes, u);
                let later = ordered_plan(p, u, u.link.to_id, u.step_id);
                let sooner = ordered_plan(p, u, u.step_id, u.link.from_id);
                let one = appended(seq![], separated_plan(cv, p, u));
                lemma_appended_scoped(cv, seq![], separated_plan(cv, p, u));
                lemma_appended_scoped(cv, one, later);
                lemma_appended_scoped(cv, appended(one, later), sooner);
            },
            FlawView::OpenCondition(oc) => {
                let at = choose|i: int| 0 <= i < p.opens.len() && p.opens[i] == oc;
                assert(sc.has_open(p.opens[at]));
                match oc.condition {
                    FormulaView::Disjunction(ds) => {
                        lemma_disjuncts_scoped(cv, p, oc, ds, ds.len());
                    },
                    FormulaView::Inequality(l, _, r, _) => {
                        if l is Variable && r is Variable {
                            let v = l->Variable_0;
                            let w = r->Variable_0;
                            let d1 = domain_of(cv, p, v, oc.step_id);
                            let d2 = domain_of(cv, p, w, oc.step_id);
                            lemma_objects_scoped(cv, p, oc, v, w, d1, d1.len());
                            lemma_objects_scoped(cv, p, oc, w, v, d2, d2.len());
                        }
                    },
                    _ => {
                        if oc.as_literal() is Some {
                            let achievers = cv.achievers(oc.as_literal()->0);
                            let n = achievers.len();
                            lemma_achievers_in(cv, oc.as_literal()->0);
                            let a = new_step_plans(cv, p, oc, achievers, n);
                            let b = reuse_plans(cv, p, oc, achievers, p.steps.len());
                            lemma_new_steps_scoped(cv, p, oc, achievers, n);
                            lemma_reuse_scoped(cv, p, oc, achievers, p.steps.len());
                            lemma_joined_scoped(cv, a, b);
                            lemma_absence_scoped(cv, p, oc);
                            lemma_appended_scoped(cv, a + b, absence_plan(cv, p, oc));
                        }
                    },
                }
            },
        }
    }
}

proof fn lemma_first_scoped(cv: ContextView)
    requires
        is_closed(cv),
    ensures
        first_plan(cv) matches Some(q) ==> is_scoped(cv, q),
{
    let steps = seq![StepView { id: INIT_ID, action: cv.init }, StepView { id: GOAL_ID, action: cv.goal }];
    let p = PlanView {
        steps,
        num_steps: 0,
        links: seq![],
        order: Set::empty(),
        classes: seq![],
        high: 0,
        unsafes: seq![],
        opens: seq![],
        fresh: seq![],
    };
    let sc = scope_at(cv, steps, seq![]);
    let base = Scope { limit: cv.fresh_base, ids: Set::empty() };
    assert(steps[0].id == INIT_ID);
    assert(steps[1].id == GOAL_ID);
    assert(base.below(sc));
    lemma_wider_action(base, sc, cv.init);
    lemma_wider_action(base, sc, cv.goal);
    lemma_goal_plan_scoped(cv, p, seq![], cv.goal.precondition, GOAL_ID);
}

/// The bindings of a plan with all in scope are settled.
pub proof fn scoped_plans_are_settled(cv: ContextView, p: PlanView)
    requires
        is_scoped(cv, p),
        p.num_steps + 1 < usize::MAX,
    ensures
        is_settled(cv, p),
{
    let sc = scope_at(cv, p.steps, p.fresh);
    assert forall|i: int, y: (Variable, usize)| 0 <= i < p.classes.len() && #[trigger] p.classes[i].members.contains(y) implies y.1 != (
    p.num_steps + 1) as usize && y.0.0 < cv.fresh_base + p.fresh.len() by {
        assert(sc.has_class(p.classes[i]));
        let k = choose|k: int| 0 <= k < p.steps.len() && (#[trigger] p.steps[k]).id == y.1;
        assert(p.steps[k].id <= p.num_steps || p.steps[k].id == GOAL_ID);
    }
}

/// Whether all that a plan holds is in its scope, and its classes arise from bindings under
/// its types.
pub open spec fn is_bound_well(cv: ContextView, p: PlanView) -> bool {
    is_scoped(cv, p) && arises(p.typing(cv), p.classes)
}

/// The bindings of every plan of a search arise from bindings under the types of the plan:
/// those of the first plan do, and those of every refinement by a flaw of a plan whose
/// bindings do, where there is room to number another step. So a pattern of an atom of the
/// plan accepts exactly the ground atoms that the atom unifies with.
pub proof fn bindings_of_plans_arise(cv: ContextView, p: PlanView, flaw: FlawView)
    requires
        is_closed(cv),
        is_transitive(p.typing(cv)),
    ensures
        first_plan(cv) matches Some(q) ==> is_bound_well(cv, q),
        is_bound_well(cv, p) && is_flaw_of(p, flaw) && p.num_steps + 1 < usize::MAX ==> forall|i: int|
            0 <= i < flaw_plans(cv, p, flaw).len() ==> is_bound_well(cv, #[trigger] flaw_plans(cv, p, flaw)[i]),
{
    plans_stay_in_scope(cv, p, flaw);
    plans_keep_arising(cv, p, flaw);
    if is_bound_well(cv, p) && p.num_steps + 1 < usize::MAX {
        scoped_plans_are_settled(cv, p);
    }
}

} // verus!
