//! The bindings of partial plans: refinement adds to them, and they stay as bindings make
//! them.
use vstd::prelude::*;

use crate::bindings::{bound_all, unifier, Binding, Class};
use crate::bindings_laws::{sound, typed_class};
use crate::effect::EffectView;
use crate::flaws::{FlawView, OpenView};
use crate::formula::FormulaView;
use crate::pattern_laws::{arises, bindings_keep_arising, is_transitive, narrow, no_classes_arise};
use crate::plan::{flaw_plans, GOAL_ID};
use crate::plan_model::{
    absence_plan, appended, disjunct_plans, domain_of, first_plan, goal_plan, link_child, link_names, names_for, new_step_plans,
    object_plan, object_plans, ordered_plan, reuse_by_step, reuse_plans, separated_plan, separation_names, types_at, with_name, with_names,
    PlanView, Renaming,
};
use crate::search::ContextView;
use crate::step::{action_of, StepActionView, StepTypesView, StepView};
use crate::terms::{Object, Variable};
use crate::typing::Typing;

verus! {

/// Whether two typings know the same of the variables that classes hold, and have the same
/// types and objects.
pub open spec fn same_types(t: Typing, u: Typing, sets: Seq<Class>) -> bool {
    &&& t.table == u.table
    &&& t.objects == u.objects
    &&& forall|i: int, y: (Variable, usize)|
        0 <= i < sets.len() && #[trigger] sets[i].members.contains(y) ==> t.var_ty(y.0, y.1) == u.var_ty(y.0, y.1)
}

/// Classes arise from bindings whatever is known of other variables than theirs.
pub proof fn arising_looks_at_own_variables(t: Typing, u: Typing, sets: Seq<Class>)
    requires
        same_types(t, u, sets),
        arises(t, sets),
    ensures
        arises(u, sets),
{
    assert forall|a: crate::types::Type, b: crate::types::Type| t.below(a, b) == u.below(a, b) by {}
    assert forall|i: int| 0 <= i < sets.len() implies typed_class(u, #[trigger] sets[i]) by {
        assert(typed_class(t, sets[i]));
        if sets[i].constant is None {
            let m = choose|m: (Variable, usize)| #[trigger] sets[i].members.contains(m) && sets[i].ty == t.var_ty(m.0, m.1);
            assert(sets[i].ty == u.var_ty(m.0, m.1));
        }
    }
    assert(sound(u, sets));
    assert(narrow(u, sets));
}

/// Whether the bindings speak of no variable that the plan has not made and of no step
/// that comes next.
pub open spec fn is_settled(cv: ContextView, p: PlanView) -> bool {
    forall|i: int, y: (Variable, usize)|
        0 <= i < p.classes.len() && #[trigger] p.classes[i].members.contains(y) ==> y.1 != (p.num_steps + 1) as usize && y.0.0 < cv.fresh_base
            + p.fresh.len()
}

/// Whether the bindings of a plan are those of another with some added, under its own types.
pub open spec fn adds_bindings(cv: ContextView, p: PlanView, c: PlanView) -> bool {
    &&& exists|bs: Seq<Binding>| #[trigger] bound_all(c.typing(cv), p.classes, bs) == Some(c.classes)
    &&& is_settled(cv, p) ==> same_types(p.typing(cv), c.typing(cv), p.classes)
}

pub open spec fn all_add(cv: ContextView, p: PlanView, plans: Seq<PlanView>) -> bool {
    forall|i: int| 0 <= i < plans.len() ==> adds_bindings(cv, p, #[trigger] plans[i])
}

proof fn lemma_appended_add(cv: ContextView, p: PlanView, plans: Seq<PlanView>, child: Option<PlanView>)
    requires
        all_add(cv, p, plans),
        child matches Some(c) ==> adds_bindings(cv, p, c),
    ensures
        all_add(cv, p, appended(plans, child)),
{
    let more = appended(plans, child);
    assert forall|i: int| 0 <= i < more.len() implies adds_bindings(cv, p, #[trigger] more[i]) by {
        if i < plans.len() {
            assert(more[i] == plans[i]);
        }
    }
}

proof fn lemma_joined_add(cv: ContextView, p: PlanView, a: Seq<PlanView>, b: Seq<PlanView>)
    requires
        all_add(cv, p, a),
        all_add(cv, p, b),
    ensures
        all_add(cv, p, a + b),
{
    let ab = a + b;
    assert forall|i: int| 0 <= i < ab.len() implies adds_bindings(cv, p, #[trigger] ab[i]) by {
        if i < a.len() {
            assert(ab[i] == a[i]);
        } else {
            assert(ab[i] == b[i - a.len()]);
        }
    }
}

proof fn lemma_same_bindings(cv: ContextView, p: PlanView, c: PlanView)
    requires
        c.classes == p.classes,
        c.steps == p.steps,
        c.fresh == p.fresh,
    ensures
        adds_bindings(cv, p, c),
{
    assert(bound_all(c.typing(cv), p.classes, seq![]) == Some(c.classes));
}

/// Whether a list begins with another.
spec fn begins_with<V>(s: Seq<V>, front: Seq<V>) -> bool {
    s.len() >= front.len() && s.take(front.len() as int) == front
}

proof fn lemma_name_grows(cv: ContextView, vars: StepTypesView, r: Renaming, v: Variable, id: usize, front: Seq<crate::types::Type>)
    requires
        begins_with(r.fresh, front),
    ensures
        begins_with(with_name(cv, vars, r, v, id).fresh, front),
{
    let s = with_name(cv, vars, r, v, id).fresh;
    assert(s.take(front.len() as int) =~= r.fresh.take(front.len() as int));
}

proof fn lemma_names_grow(cv: ContextView, vars: StepTypesView, r: Renaming, ps: Seq<Variable>, id: usize, n: nat, front: Seq<crate::types::Type>)
    requires
        begins_with(r.fresh, front),
    ensures
        begins_with(with_names(cv, vars, r, ps, id, n).fresh, front),
    decreases n,
{
    if n > 0 {
        lemma_names_grow(cv, vars, r, ps, id, (n - 1) as nat, front);
        lemma_name_grows(cv, vars, with_names(cv, vars, r, ps, id, (n - 1) as nat), ps[n - 1], id, front);
    }
}

proof fn lemma_names_for_grow(
    cv: ContextView,
    vars: StepTypesView,
    r: Renaming,
    e: EffectView,
    id: usize,
    u: Seq<Binding>,
    n: nat,
    front: Seq<crate::types::Type>,
)
    requires
        begins_with(r.fresh, front),
    ensures
        begins_with(names_for(cv, vars, r, e, id, u, n).fresh, front),
    decreases n,
{
    if n > 0 {
        lemma_names_for_grow(cv, vars, r, e, id, u, (n - 1) as nat, front);
        lemma_name_grows(cv, vars, names_for(cv, vars, r, e, id, u, (n - 1) as nat), u[n - 1].var, id, front);
    }
}

/// More fresh variables, or a next step, change nothing for the variables of a plan.
proof fn lemma_types_stay(cv: ContextView, p: PlanView, c: PlanView)
    requires
        c.steps == p.steps || (c.steps.len() > 0 && c.steps == seq![c.steps[0]] + p.steps && c.steps[0].id == (p.num_steps + 1) as usize),
        begins_with(c.fresh, p.fresh),
        is_settled(cv, p),
    ensures
        same_types(p.typing(cv), c.typing(cv), p.classes),
{
    let t = p.typing(cv);
    let u = c.typing(cv);
    let sets = p.classes;
    assert forall|i: int, y: (Variable, usize)| 0 <= i < sets.len() && #[trigger] sets[i].members.contains(y) implies t.var_ty(y.0, y.1)
        == u.var_ty(y.0, y.1) by {
        if y.0.0 >= cv.fresh_base {
            let k = y.0.0 - cv.fresh_base;
            assert(c.fresh.take(p.fresh.len() as int)[k] == c.fresh[k]);
        } else if c.steps != p.steps {
            assert(c.steps.drop_first() =~= p.steps);
            assert(action_of(c.steps, y.1) == action_of(p.steps, y.1));
        }
    }
}

proof fn lemma_goal_plan_adds(cv: ContextView, p: PlanView, q: PlanView, opens: Seq<OpenView>, goal: FormulaView, id: usize)
    requires
        q.classes == p.classes,
        q.steps == p.steps,
        begins_with(q.fresh, p.fresh),
    ensures
        goal_plan(cv, q, opens, goal, id) matches Some(c) ==> adds_bindings(cv, p, c),
{
    if let Some(c) = goal_plan(cv, q, opens, goal, id) {
        let t = q.typing(cv);
        let a = crate::agenda::with_goal(t, crate::agenda::Agenda { opens, binds: seq![] }, goal, id)->0;
        assert(c.typing(cv) == t);
        assert(bound_all(c.typing(cv), p.classes, a.binds) == Some(c.classes));
        if is_settled(cv, p) {
            lemma_types_stay(cv, p, c);
        }
    }
}

proof fn lemma_link_adds(cv: ContextView, p: PlanView, s: StepView, is_new: bool, k: int, oc: OpenView)
    requires
        is_new ==> s.id == (p.num_steps + 1) as usize,
    ensures
        link_child(cv, p, s, is_new, k, oc) matches Some(c) ==> adds_bindings(cv, p, c),
{
    if let Some(c) = link_child(cv, p, s, is_new, k, oc) {
        let steps = if is_new {
            seq![s] + p.steps
        } else {
            p.steps
        };
        let e = s.action.effects[k];
        let l = oc.as_literal()->0;
        let u = unifier(cv.typing(types_at(cv, steps, p.fresh)), p.classes, e.literal.atom, s.id, l.atom, oc.step_id);
        let r = link_names(cv, p, steps, s, e, u);
        let t = cv.typing(types_at(cv, steps, r.fresh));
        let a = crate::plan_model::link_agenda(t, p, s, is_new, e, oc, u, r.subst)->0;
        assert(c.typing(cv) == t);
        assert(bound_all(c.typing(cv), p.classes, a.binds) == Some(c.classes));
        let vars = types_at(cv, steps, p.fresh);
        let start = Renaming { subst: seq![], fresh: p.fresh };
        assert(p.fresh.take(p.fresh.len() as int) =~= p.fresh);
        lemma_names_for_grow(cv, vars, start, e, s.id, u, u.len(), p.fresh);
        lemma_names_grow(cv, vars, names_for(cv, vars, start, e, s.id, u, u.len()), e.parameters, s.id, e.parameters.len(), p.fresh);
        if is_new {
            assert(c.steps[0] == s);
        }
        if is_settled(cv, p) {
            lemma_types_stay(cv, p, c);
        }
    }
}

proof fn lemma_new_steps_add(cv: ContextView, p: PlanView, oc: OpenView, achievers: Seq<(StepActionView, int)>, n: nat)
    ensures
        all_add(cv, p, new_step_plans(cv, p, oc, achievers, n)),
    decreases n,
{
    if n > 0 {
        lemma_new_steps_add(cv, p, oc, achievers, (n - 1) as nat);
        let (a, k) = achievers[n - 1];
        let s = StepView { id: (p.num_steps + 1) as usize, action: a };
        lemma_link_adds(cv, p, s, true, k, oc);
        lemma_appended_add(cv, p, new_step_plans(cv, p, oc, achievers, (n - 1) as nat), link_child(cv, p, s, true, k, oc));
    }
}

proof fn lemma_reuse_by_step_add(cv: ContextView, p: PlanView, oc: OpenView, s: StepView, achievers: Seq<(StepActionView, int)>, n: nat)
    ensures
        all_add(cv, p, reuse_by_step(cv, p, oc, s, achievers, n)),
    decreases n,
{
    if n > 0 {
        lemma_reuse_by_step_add(cv, p, oc, s, achievers, (n - 1) as nat);
        let (a, k) = achievers[n - 1];
        lemma_link_adds(cv, p, s, false, k, oc);
        lemma_appended_add(cv, p, reuse_by_step(cv, p, oc, s, achievers, (n - 1) as nat), link_child(cv, p, s, false, k, oc));
    }
}

proof fn lemma_reuse_add(cv: ContextView, p: PlanView, oc: OpenView, achievers: Seq<(StepActionView, int)>, n: nat)
    ensures
        all_add(cv, p, reuse_plans(cv, p, oc, achievers, n)),
    decreases n,
{
    if n > 0 {
        lemma_reuse_add(cv, p, oc, achievers, (n - 1) as nat);
        lemma_reuse_by_step_add(cv, p, oc, p.steps[n - 1], achievers, achievers.len());
        lemma_joined_add(
            cv,
            p,
            reuse_plans(cv, p, oc, achievers, (n - 1) as nat),
            reuse_by_step(cv, p, oc, p.steps[n - 1], achievers, achievers.len()),
        );
    }
}

proof fn lemma_disjuncts_add(cv: ContextView, p: PlanView, oc: OpenView, ds: Seq<FormulaView>, n: nat)
    ensures
        all_add(cv, p, disjunct_plans(cv, p, oc, ds, n)),
    decreases n,
{
    if n > 0 {
        lemma_disjuncts_add(cv, p, oc, ds, (n - 1) as nat);
        let opens = crate::flaws::removed(p.opens, oc);
        assert(p.fresh.take(p.fresh.len() as int) =~= p.fresh);
        lemma_goal_plan_adds(cv, p, p, opens, ds[n - 1], oc.step_id);
        lemma_appended_add(cv, p, disjunct_plans(cv, p, oc, ds, (n - 1) as nat), goal_plan(cv, p, opens, ds[n - 1], oc.step_id));
    }
}

proof fn lemma_objects_add(cv: ContextView, p: PlanView, oc: OpenView, v: Variable, w: Variable, os: Seq<Object>, n: nat)
    ensures
        all_add(cv, p, object_plans(cv, p, oc, v, w, os, n)),
    decreases n,
{
    if n > 0 {
        lemma_objects_add(cv, p, oc, v, w, os, (n - 1) as nat);
        let child = object_plan(cv, p, oc, v, w, os[n - 1]);
        if let Some(c) = child {
            assert(c.typing(cv) == p.typing(cv));
        }
        lemma_appended_add(cv, p, object_plans(cv, p, oc, v, w, os, (n - 1) as nat), child);
    }
}

proof fn lemma_absence_adds(cv: ContextView, p: PlanView, oc: OpenView)
    ensures
        absence_plan(cv, p, oc) matches Some(c) ==> adds_bindings(cv, p, c),
{
    if let Some(c) = absence_plan(cv, p, oc) {
        assert(c.typing(cv) == p.typing(cv));
    }
}

proof fn lemma_separated_adds(cv: ContextView, p: PlanView, u: crate::flaws::UnsafeView)
    ensures
        separated_plan(cv, p, u) matches Some(c) ==> adds_bindings(cv, p, c),
{
    let r = separation_names(cv, p, u);
    let q = PlanView { unsafes: crate::flaws::removed(p.unsafes, u), fresh: r.fresh, ..p };
    assert(p.fresh.take(p.fresh.len() as int) =~= p.fresh);
    lemma_names_grow(
        cv,
        types_at(cv, p.steps, p.fresh),
        Renaming { subst: seq![], fresh: p.fresh },
        u.effect.parameters,
        u.step_id,
        u.effect.parameters.len(),
        p.fresh,
    );
    let goal = crate::plan_model::separation(p, u, crate::plan_model::threat_unifier(cv, p, u), r);
    lemma_goal_plan_adds(cv, p, q, p.opens, goal, u.step_id);
}

/// Refinement only adds bindings: those of every child are the plan's with some added. A
/// new step and fresh variables change no type of a variable that the plan's bindings
/// speak of.
pub proof fn refinement_adds_bindings(cv: ContextView, p: PlanView, flaw: FlawView)
    ensures
        all_add(cv, p, flaw_plans(cv, p, flaw)),
{
    match flaw {
        FlawView::Unsafe(u) => {
            lemma_separated_adds(cv, p, u);
            let later = ordered_plan(p, u, u.link.to_id, u.step_id);
            let sooner = ordered_plan(p, u, u.step_id, u.link.from_id);
            if let Some(c) = later {
                lemma_same_bindings(cv, p, c);
            }
            if let Some(c) = sooner {
                lemma_same_bindings(cv, p, c);
            }
            let one = appended(seq![], separated_plan(cv, p, u));
            lemma_appended_add(cv, p, seq![], separated_plan(cv, p, u));
            lemma_appended_add(cv, p, one, later);
            lemma_appended_add(cv, p, appended(one, later), sooner);
            lemma_same_bindings(cv, p, PlanView { unsafes: crate::flaws::removed(p.unsafes, u), ..p });
        },
        FlawView::OpenCondition(oc) => {
            match oc.condition {
                FormulaView::Disjunction(ds) => {
                    lemma_disjuncts_add(cv, p, oc, ds, ds.len());
                },
                FormulaView::Inequality(l, _, r, _) => {
                    if l is Variable && r is Variable {
                        let v = l->Variable_0;
                        let w = r->Variable_0;
                        let d1 = domain_of(cv, p, v, oc.step_id);
                        let d2 = domain_of(cv, p, w, oc.step_id);
                        lemma_objects_add(cv, p, oc, v, w, d1, d1.len());
                        lemma_objects_add(cv, p, oc, w, v, d2, d2.len());
                    }
                },
                _ => {
                    if oc.as_literal() is Some {
                        let achievers = cv.achievers(oc.as_literal()->0);
                        let n = achievers.len();
                        let a = new_step_plans(cv, p, oc, achievers, n);
                        let b = reuse_plans(cv, p, oc, achievers, p.steps.len());
                        lemma_new_steps_add(cv, p, oc, achievers, n);
                        lemma_reuse_add(cv, p, oc, achievers, p.steps.len());
                        lemma_joined_add(cv, p, a, b);
                        lemma_absence_adds(cv, p, oc);
                        lemma_appended_add(cv, p, a + b, absence_plan(cv, p, oc));
                    }
                },
            }
        },
    }
}

/// The bindings of the first plan, and of all refinements of a plan whose bindings do and
/// speak only of its own steps and variables, arise from bindings under the types of the
/// plan: so a pattern of an atom of such a plan accepts exactly the ground atoms that the
/// atom unifies with.
pub proof fn plans_keep_arising(cv: ContextView, p: PlanView, flaw: FlawView)
    requires
        is_transitive(p.typing(cv)),
    ensures
        first_plan(cv) matches Some(q) ==> arises(q.typing(cv), q.classes),
        arises(p.typing(cv), p.classes) && is_settled(cv, p) ==> forall|i: int|
            0 <= i < flaw_plans(cv, p, flaw).len() ==> {
                let child = #[trigger] flaw_plans(cv, p, flaw)[i];
                arises(child.typing(cv), child.classes)
            },
{
    assert forall|t: Typing| t.table == cv.table implies #[trigger] is_transitive(t) by {
        assert forall|a: crate::types::Type, b: crate::types::Type| t.below(a, b) == p.typing(cv).below(a, b) by {}
    }
    if let Some(q) = first_plan(cv) {
        let t = q.typing(cv);
        let start = crate::agenda::Agenda { opens: seq![], binds: seq![] };
        let a = crate::agenda::with_goal(t, start, cv.goal.precondition, GOAL_ID)->0;
        no_classes_arise(t);
        assert(bound_all(t, Seq::empty(), a.binds) == Some(q.classes));
        bindings_keep_arising(t, Seq::empty(), a.binds, q.classes);
    }
    refinement_adds_bindings(cv, p, flaw);
    let plans = flaw_plans(cv, p, flaw);
    if arises(p.typing(cv), p.classes) && is_settled(cv, p) {
        assert forall|i: int| 0 <= i < plans.len() implies arises((#[trigger] plans[i]).typing(cv), plans[i].classes) by {
            let c = plans[i];
            assert(adds_bindings(cv, p, c));
            arising_looks_at_own_variables(p.typing(cv), c.typing(cv), p.classes);
            let bs = choose|bs: Seq<Binding>| #[trigger] bound_all(c.typing(cv), p.classes, bs) == Some(c.classes);
            bindings_keep_arising(c.typing(cv), p.classes, bs, c.classes);
        }
    }
}

} // verus!
