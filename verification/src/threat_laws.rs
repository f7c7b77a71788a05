//! Which threats a refinement lists.
use vstd::prelude::*;

use crate::bindings::{literals_clash, Class};
use crate::bindings_laws::{admits, equal_atoms, is_hierarchy, sound, unifier_is_most_general, well_typed};
use crate::causal_laws::{lemma_in_tail, lemma_of_appended, lemma_of_joined, lemma_of_new_steps, lemma_of_reuse, lemma_removed_other};
use crate::effect::EffectView;
use crate::flaws::{FlawView, LinkView, OpenView, UnsafeView};
use crate::formula::FormulaView;
use crate::orderings::comes_before;
use crate::pattern_laws::is_transitive;
use crate::plan::flaw_plans;
use crate::plan_model::{
    absence_plan, appended, disjunct_plans, domain_of, effect_threats, goal_plan, link_child, new_step_plans, object_plan, object_plans,
    ordered_plan, reuse_plans, separated_plan, threatens, threats_by, threats_to, PlanView,
};
use crate::plan_scope_laws::{bindings_of_plans_arise, is_bound_well, is_closed};
use crate::search::ContextView;
use crate::select::is_flaw_of;
use crate::step::StepView;
use crate::terms::{Object, Variable};
use crate::typing::Typing;

verus! {

/// Whether some objects for the variables, of their types and as the bindings of a
/// plan ask, make an effect of a step say the contrary of a link's condition.
pub open spec fn may_contradict(cv: ContextView, p: PlanView, l: LinkView, x: StepView, e: EffectView) -> bool {
    &&& e.literal.negative != l.condition.negative
    &&& exists|s: spec_fn(Variable, usize) -> Object| #[trigger]
        admits(p.classes, s) && well_typed(p.typing(cv), s) && equal_atoms(s, l.condition.atom, l.to_id, e.literal.atom, x.id)
}

/// Whether a step other than those of a link may come between them.
pub open spec fn may_intervene(p: PlanView, l: LinkView, x: StepView) -> bool {
    &&& x.id != l.from_id
    &&& x.id != l.to_id
    &&& !comes_before(p.order, x.id as int, l.from_id as int)
    &&& !comes_before(p.order, l.to_id as int, x.id as int)
}

/// Whether a plan lists every effect of a step that may interfere with a link.
pub open spec fn is_noticed(cv: ContextView, p: PlanView, l: LinkView, x: StepView) -> bool {
    may_intervene(p, l, x) ==> forall|k: int|
        0 <= k < x.action.effects.len() && !((#[trigger] x.action.effects[k]).link_condition is False) && may_contradict(
            cv,
            p,
            l,
            x,
            x.action.effects[k],
        ) ==> p.unsafes.contains(UnsafeView { link: l, step_id: x.id, effect: x.action.effects[k] })
}

proof fn lemma_clashes(cv: ContextView, q: PlanView, l: LinkView, x: StepView, e: EffectView)
    requires
        is_hierarchy(q.typing(cv)),
        sound(q.typing(cv), q.classes),
        may_contradict(cv, q, l, x, e),
    ensures
        literals_clash(q.typing(cv), q.classes, seq![], e.literal, x.id, l.condition, l.to_id),
{
    let s = choose|s: spec_fn(Variable, usize) -> Object| #[trigger]
        admits(q.classes, s) && well_typed(q.typing(cv), s) && equal_atoms(s, l.condition.atom, l.to_id, e.literal.atom, x.id);
    unifier_is_most_general(q.typing(cv), q.classes, l.condition.atom, l.to_id, e.literal.atom, x.id, s);
}

proof fn lemma_effect_listed(t: Typing, sets: Seq<Class>, order: Set<(int, int)>, l: LinkView, x: StepView, n: nat, k: int)
    requires
        0 <= k < n <= x.action.effects.len(),
        threatens(t, sets, order, l, x, x.action.effects[k]),
    ensures
        effect_threats(t, sets, order, l, x, n).contains(UnsafeView { link: l, step_id: x.id, effect: x.action.effects[k] }),
    decreases n,
{
    let u = UnsafeView { link: l, step_id: x.id, effect: x.action.effects[k] };
    let all = effect_threats(t, sets, order, l, x, n);
    if k == n - 1 {
        assert(all[0] == u);
    } else {
        lemma_effect_listed(t, sets, order, l, x, (n - 1) as nat, k);
        let rest = effect_threats(t, sets, order, l, x, (n - 1) as nat);
        let i = choose|i: int| 0 <= i < rest.len() && rest[i] == u;
        if threatens(t, sets, order, l, x, x.action.effects[n - 1]) {
            assert(all[i + 1] == u);
        } else {
            assert(all[i] == u);
        }
    }
}

proof fn lemma_to_listed(t: Typing, sets: Seq<Class>, order: Set<(int, int)>, l: LinkView, steps: Seq<StepView>, n: nat, j: int, u: UnsafeView)
    requires
        0 <= j < n <= steps.len(),
        effect_threats(t, sets, order, l, steps[j], steps[j].action.effects.len()).contains(u),
    ensures
        threats_to(t, sets, order, l, steps, n).contains(u),
    decreases n,
{
    let x = steps[n - 1];
    let a = effect_threats(t, sets, order, l, x, x.action.effects.len());
    let b = threats_to(t, sets, order, l, steps, (n - 1) as nat);
    if j == n - 1 {
        let i = choose|i: int| 0 <= i < a.len() && a[i] == u;
        assert((a + b)[i] == u);
    } else {
        lemma_to_listed(t, sets, order, l, steps, (n - 1) as nat, j, u);
        let i = choose|i: int| 0 <= i < b.len() && b[i] == u;
        assert((a + b)[a.len() + i] == u);
    }
}

proof fn lemma_by_listed(t: Typing, sets: Seq<Class>, order: Set<(int, int)>, ls: Seq<LinkView>, x: StepView, n: nat, i: int, u: UnsafeView)
    requires
        0 <= i < n <= ls.len(),
        effect_threats(t, sets, order, ls[i], x, x.action.effects.len()).contains(u),
    ensures
        threats_by(t, sets, order, ls, x, n).contains(u),
    decreases n,
{
    let a = effect_threats(t, sets, order, ls[n - 1], x, x.action.effects.len());
    let b = threats_by(t, sets, order, ls, x, (n - 1) as nat);
    if i == n - 1 {
        let k = choose|k: int| 0 <= k < a.len() && a[k] == u;
        assert((a + b)[k] == u);
    } else {
        lemma_by_listed(t, sets, order, ls, x, (n - 1) as nat, i, u);
        let k = choose|k: int| 0 <= k < b.len() && b[k] == u;
        assert((a + b)[a.len() + k] == u);
    }
}

/// Where a plan lists the threats that a step's effects make to a link, it notices
/// all that may interfere.
proof fn lemma_noticed(cv: ContextView, q: PlanView, l: LinkView, x: StepView)
    requires
        is_hierarchy(q.typing(cv)),
        sound(q.typing(cv), q.classes),
        forall|u: UnsafeView| #[trigger]
            effect_threats(q.typing(cv), q.classes, q.order, l, x, x.action.effects.len()).contains(u) ==> q.unsafes.contains(u),
    ensures
        is_noticed(cv, q, l, x),
{
    if may_intervene(q, l, x) {
        assert forall|k: int|
            0 <= k < x.action.effects.len() && !((#[trigger] x.action.effects[k]).link_condition is False) && may_contradict(
                cv,
                q,
                l,
                x,
                x.action.effects[k],
            ) implies q.unsafes.contains(UnsafeView { link: l, step_id: x.id, effect: x.action.effects[k] }) by {
            lemma_clashes(cv, q, l, x, x.action.effects[k]);
            lemma_effect_listed(q.typing(cv), q.classes, q.order, l, x, x.action.effects.len(), k);
        }
    }
}

/// Whether a plan notices all that may interfere with the first link of its own, and
/// all that its first step may interfere with.
spec fn notices_new(cv: ContextView, p: PlanView, q: PlanView) -> bool {
    forall|i: int, j: int|
        0 <= i < q.links.len() && 0 <= j < q.steps.len() && (i < q.links.len() - p.links.len() || j < q.steps.len() - p.steps.len()) ==> is_noticed(
            cv,
            q,
            #[trigger] q.links[i],
            #[trigger] q.steps[j],
        )
}

proof fn lemma_link_noticed(cv: ContextView, p: PlanView, x: StepView, is_new: bool, k: int, oc: OpenView, q: PlanView)
    requires
        link_child(cv, p, x, is_new, k, oc) == Some(q),
        is_hierarchy(q.typing(cv)),
        sound(q.typing(cv), q.classes),
    ensures
        notices_new(cv, p, q),
{
    let t = q.typing(cv);
    let to = threats_to(t, q.classes, q.order, q.links[0], q.steps, q.steps.len());
    let by = threats_by(t, q.classes, q.order, p.links, x, p.links.len());
    assert(q.unsafes == (if is_new {
        by + (to + p.unsafes)
    } else {
        to + p.unsafes
    }));
    assert forall|i: int, j: int|
        0 <= i < q.links.len() && 0 <= j < q.steps.len() && (i < q.links.len() - p.links.len() || j < q.steps.len() - p.steps.len()) implies is_noticed(
        cv,
        q,
        #[trigger] q.links[i],
        #[trigger] q.steps[j],
    ) by {
        let l = q.links[i];
        let y = q.steps[j];
        assert forall|u: UnsafeView| #[trigger] effect_threats(t, q.classes, q.order, l, y, y.action.effects.len()).contains(u) implies q.unsafes.contains(
            u,
        ) by {
            if i == 0 {
                lemma_to_listed(t, q.classes, q.order, l, q.steps, q.steps.len(), j, u);
                let m = choose|m: int| 0 <= m < to.len() && to[m] == u;
                if is_new {
                    assert(q.unsafes[by.len() + m] == u);
                } else {
                    assert(q.unsafes[m] == u);
                }
            } else {
                assert(l == p.links[i - 1]);
                assert(y == x);
                lemma_by_listed(t, q.classes, q.order, p.links, x, p.links.len(), i - 1, u);
                let m = choose|m: int| 0 <= m < by.len() && by[m] == u;
                assert(q.unsafes[m] == u);
            }
        }
        lemma_noticed(cv, q, l, y);
    }
}

proof fn lemma_absence_noticed(cv: ContextView, p: PlanView, oc: OpenView, q: PlanView)
    requires
        absence_plan(cv, p, oc) == Some(q),
        is_hierarchy(q.typing(cv)),
        sound(q.typing(cv), q.classes),
    ensures
        notices_new(cv, p, q),
{
    let t = q.typing(cv);
    let to = threats_to(t, q.classes, q.order, q.links[0], q.steps, q.steps.len());
    assert(q.unsafes == to + p.unsafes);
    assert forall|i: int, j: int|
        0 <= i < q.links.len() && 0 <= j < q.steps.len() && (i < q.links.len() - p.links.len() || j < q.steps.len() - p.steps.len()) implies is_noticed(
        cv,
        q,
        #[trigger] q.links[i],
        #[trigger] q.steps[j],
    ) by {
        let y = q.steps[j];
        assert forall|u: UnsafeView| #[trigger]
            effect_threats(t, q.classes, q.order, q.links[i], y, y.action.effects.len()).contains(u) implies q.unsafes.contains(u) by {
            lemma_to_listed(t, q.classes, q.order, q.links[0], q.steps, q.steps.len(), j, u);
            let m = choose|m: int| 0 <= m < to.len() && to[m] == u;
            assert(q.unsafes[m] == u);
        }
        lemma_noticed(cv, q, q.links[i], y);
    }
}

proof fn lemma_same_parts(cv: ContextView, p: PlanView, q: PlanView)
    requires
        q.links == p.links,
        q.steps == p.steps,
    ensures
        notices_new(cv, p, q),
{
}

proof fn lemma_of_disjuncts(cv: ContextView, p: PlanView, oc: OpenView, ds: Seq<FormulaView>, n: nat, q: PlanView)
    requires
        disjunct_plans(cv, p, oc, ds, n).contains(q),
    ensures
        q.links == p.links,
        q.steps == p.steps,
    decreases n,
{
    let rest = disjunct_plans(cv, p, oc, ds, (n - 1) as nat);
    lemma_of_appended(rest, goal_plan(cv, p, crate::flaws::removed(p.opens, oc), ds[n - 1], oc.step_id), q);
    if rest.contains(q) {
        lemma_of_disjuncts(cv, p, oc, ds, (n - 1) as nat, q);
    }
}

proof fn lemma_of_objects(cv: ContextView, p: PlanView, oc: OpenView, v: Variable, w: Variable, os: Seq<Object>, n: nat, q: PlanView)
    requires
        object_plans(cv, p, oc, v, w, os, n).contains(q),
    ensures
        q.links == p.links,
        q.steps == p.steps,
    decreases n,
{
    let rest = object_plans(cv, p, oc, v, w, os, (n - 1) as nat);
    lemma_of_appended(rest, object_plan(cv, p, oc, v, w, os[n - 1]), q);
    if rest.contains(q) {
        lemma_of_objects(cv, p, oc, v, w, os, (n - 1) as nat, q);
    }
}

/// A refinement lists all new interference: wherever the link or the step is one that
/// the refinement adds, every effect of the step that may come between the link's
/// steps, and that some objects for the variables make the contrary of the link's
/// condition, is among the threats of the refinement. Threats of the plan itself stay
/// listed until they are refined.
pub proof fn refinements_list_new_threats(cv: ContextView, p: PlanView, flaw: FlawView, q: PlanView)
    requires
        is_closed(cv),
        is_hierarchy(p.typing(cv)),
        is_transitive(p.typing(cv)),
        is_bound_well(cv, p),
        p.num_steps + 1 < usize::MAX,
        is_flaw_of(p, flaw),
        flaw_plans(cv, p, flaw).contains(q),
    ensures
        forall|i: int, j: int|
            0 <= i < q.links.len() && 0 <= j < q.steps.len() && (i < q.links.len() - p.links.len() || j < q.steps.len() - p.steps.len()) ==> is_noticed(
                cv,
                q,
                #[trigger] q.links[i],
                #[trigger] q.steps[j],
            ),
        forall|u: UnsafeView| #[trigger] p.unsafes.contains(u) && flaw != FlawView::Unsafe(u) ==> q.unsafes.contains(u),
{
    bindings_of_plans_arise(cv, p, flaw);
    crate::refine_laws::refinement_keeps_all_but_the_flaw(cv, p, flaw);
    let plans = flaw_plans(cv, p, flaw);
    let at = choose|i: int| 0 <= i < plans.len() && plans[i] == q;
    assert(is_bound_well(cv, plans[at]));
    assert(crate::refine_laws::keeps_all_but(p, flaw, plans[at]));
    assert(is_hierarchy(q.typing(cv))) by {
        let t = p.typing(cv);
        let u = q.typing(cv);
        assert forall|x: crate::types::Type, a: crate::types::Type, b: crate::types::Type| #[trigger]
            u.below(x, a) && #[trigger] u.below(x, b) implies u.meet(a, b) is Some by {
            assert(t.below(x, a) && t.below(x, b));
            assert(t.meet(a, b) is Some);
        }
    }
    assert forall|u: UnsafeView| #[trigger] p.unsafes.contains(u) && flaw != FlawView::Unsafe(u) implies q.unsafes.contains(u) by {
        match flaw {
            FlawView::OpenCondition(_) => {
                let m = choose|m: int| 0 <= m < p.unsafes.len() && p.unsafes[m] == u;
                lemma_in_tail(q.unsafes, p.unsafes, m);
            },
            FlawView::Unsafe(u0) => {
                lemma_removed_other(p.unsafes, u, u0);
            },
        }
    }
    match flaw {
        FlawView::Unsafe(u) => {
            let one = appended(seq![], separated_plan(cv, p, u));
            let later = ordered_plan(p, u, u.link.to_id, u.step_id);
            let sooner = ordered_plan(p, u, u.step_id, u.link.from_id);
            if crate::plan_model::is_threat(cv, p, u) {
                lemma_of_appended(appended(one, later), sooner, q);
                if sooner != Some(q) {
                    lemma_of_appended(one, later, q);
                    if later != Some(q) {
                        lemma_of_appended(seq![], separated_plan(cv, p, u), q);
                    }
                }
            }
            lemma_same_parts(cv, p, q);
        },
        FlawView::OpenCondition(oc) => {
            match oc.condition {
                FormulaView::Disjunction(ds) => {
                    lemma_of_disjuncts(cv, p, oc, ds, ds.len(), q);
                    lemma_same_parts(cv, p, q);
                },
                FormulaView::Inequality(l, _, r, _) => {
                    let v = l->Variable_0;
                    let w = r->Variable_0;
                    let d1 = domain_of(cv, p, v, oc.step_id);
                    let d2 = domain_of(cv, p, w, oc.step_id);
                    if d1.len() < d2.len() {
                        lemma_of_objects(cv, p, oc, v, w, d1, d1.len(), q);
                    } else {
                        lemma_of_objects(cv, p, oc, w, v, d2, d2.len(), q);
                    }
                    lemma_same_parts(cv, p, q);
                },
                _ => {
                    let l = oc.as_literal()->0;
                    let achievers = cv.achievers(l);
                    let a = new_step_plans(cv, p, oc, achievers, achievers.len());
                    let b = reuse_plans(cv, p, oc, achievers, p.steps.len());
                    if l.negative {
                        lemma_of_appended(a + b, absence_plan(cv, p, oc), q);
                    }
                    if l.negative && absence_plan(cv, p, oc) == Some(q) {
                        lemma_absence_noticed(cv, p, oc, q);
                    } else {
                        lemma_of_joined(a, b, q);
                        if a.contains(q) {
                            let m = lemma_of_new_steps(cv, p, oc, achievers, achievers.len(), q);
                            let x = StepView { id: (p.num_steps + 1) as usize, action: achievers[m].0 };
                            lemma_link_noticed(cv, p, x, true, achievers[m].1, oc, q);
                        } else {
                            let (j, m) = lemma_of_reuse(cv, p, oc, achievers, p.steps.len(), q);
                            lemma_link_noticed(cv, p, p.steps[j], false, achievers[m].1, oc, q);
                        }
                    }
                },
            }
        },
    }
}

} // verus!
