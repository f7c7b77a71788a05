//! What refinement keeps: a child has all that its parent has but the flaw.
use vstd::prelude::*;

use crate::agenda::{foralls, foralls_all, lemma_base_foralls, lemma_foralls_less, lemma_foralls_member, universal_base, with_goal, with_goals, Agenda};
use crate::flaws::{removed, FlawView, OpenView};
use crate::formula::{put, FormulaView};
use crate::plan::flaw_plans;
use crate::plan_model::{
    absence, absence_plan, appended, disjunct_plans, domain_of, first_plan, goal_plan, link_agenda, link_child, link_goal, link_names,
    named_all, new_step_plans, object_plan, object_plans, ordered_plan, reuse_by_step, reuse_plans, separated_plan,
    separation, separation_names, threat_unifier, types_at, PlanView,
};
use crate::search::ContextView;
use crate::step::{StepActionView, StepView};
use crate::terms::{Object, Variable};
use crate::typing::Typing;

verus! {

/// Whether a list ends with another.
pub open spec fn ends_with<V>(s: Seq<V>, tail: Seq<V>) -> bool {
    s.len() >= tail.len() && s.skip(s.len() - tail.len()) == tail
}

proof fn lemma_ends_front<V>(front: Seq<V>, s: Seq<V>, tail: Seq<V>)
    requires
        ends_with(s, tail),
    ensures
        ends_with(front + s, tail),
        ends_with(s, s),
{
    let whole = front + s;
    assert(whole.skip(whole.len() - tail.len()) =~= s.skip(s.len() - tail.len()));
    assert(s.skip(0) =~= s);
}

proof fn lemma_ends_self<V>(s: Seq<V>)
    ensures
        ends_with(s, s),
{
    assert(s.skip(0) =~= s);
}

proof fn lemma_ends_chain<V>(a: Seq<V>, b: Seq<V>, c: Seq<V>)
    requires
        ends_with(a, b),
        ends_with(b, c),
    ensures
        ends_with(a, c),
{
    assert(a.skip(a.len() - c.len()) =~= b.skip(b.len() - c.len()));
}

/// Whether a child of a plan by a flaw keeps what the plan has: its steps and links
/// end with those of the plan, and so do its open conditions and threats, without the
/// flaw. It has at most one step more, and counts it.
pub open spec fn keeps_all_but(p: PlanView, flaw: FlawView, child: PlanView) -> bool {
    &&& child.num_steps == p.num_steps || child.num_steps == p.num_steps + 1
    &&& child.steps.len() - p.steps.len() == child.num_steps - p.num_steps
    &&& ends_with(child.steps, p.steps)
    &&& ends_with(child.links, p.links)
    &&& match flaw {
        FlawView::OpenCondition(oc) => ends_with(child.opens, removed(p.opens, oc)) && ends_with(child.unsafes, p.unsafes),
        FlawView::Unsafe(u) => ends_with(child.opens, p.opens) && child.unsafes == removed(p.unsafes, u),
    }
}

/// Whether all children do.
pub open spec fn all_keep(p: PlanView, flaw: FlawView, plans: Seq<PlanView>) -> bool {
    forall|i: int| 0 <= i < plans.len() ==> keeps_all_but(p, flaw, #[trigger] plans[i])
}

proof fn lemma_appended_keep(p: PlanView, flaw: FlawView, plans: Seq<PlanView>, child: Option<PlanView>)
    requires
        all_keep(p, flaw, plans),
        child matches Some(c) ==> keeps_all_but(p, flaw, c),
    ensures
        all_keep(p, flaw, appended(plans, child)),
{
    let more = appended(plans, child);
    assert forall|i: int| 0 <= i < more.len() implies keeps_all_but(p, flaw, #[trigger] more[i]) by {
        if i < plans.len() {
            assert(more[i] == plans[i]);
        }
    }
}

/// The goals of a list come in front of what is open.
proof fn lemma_goals_in_front(t: Typing, a: Agenda, fs: Seq<FormulaView>, n: nat, step_id: usize)
    ensures
        with_goals(t, a, fs, n, step_id) matches Some(b) ==> ends_with(b.opens, a.opens),
    decreases foralls_all(fs, n), fs, n,
{
    lemma_ends_self(a.opens);
    if !(n == 0 || n > fs.len()) {
        lemma_foralls_member(fs, n, n - 1);
        if n > 1 {
            lemma_foralls_less(fs, n);
        }
        lemma_goal_in_front(t, a, fs[n - 1], step_id);
        match with_goal(t, a, fs[n - 1], step_id) {
            None => {},
            Some(b) => {
                lemma_goals_in_front(t, b, fs, (n - 1) as nat, step_id);
                match with_goals(t, b, fs, (n - 1) as nat, step_id) {
                    None => {},
                    Some(c) => {
                        lemma_ends_chain(c.opens, b.opens, a.opens);
                    },
                }
            },
        }
    }
}

/// A goal comes in front of what is open.
proof fn lemma_goal_in_front(t: Typing, a: Agenda, f: FormulaView, step_id: usize)
    ensures
        with_goal(t, a, f, step_id) matches Some(b) ==> ends_with(b.opens, a.opens),
    decreases foralls(f), f, 0nat,
{
    lemma_ends_self(a.opens);
    match f {
        FormulaView::Atom(_) | FormulaView::Negation(_) | FormulaView::Disjunction(_) => {
            let b = with_goal(t, a, f, step_id)->0;
            lemma_ends_front(seq![b.opens[0]], a.opens, a.opens);
            assert(b.opens =~= seq![b.opens[0]] + a.opens);
        },
        FormulaView::Conjunction(cs) => {
            lemma_goals_in_front(t, a, cs, cs.len(), step_id);
        },
        FormulaView::Exists(_, body) => {
            lemma_goal_in_front(t, a, *body, step_id);
        },
        FormulaView::Forall(params, body) => {
            lemma_base_foralls(t, params, *body, step_id);
            lemma_goal_in_front(t, a, universal_base(t, params, *body, step_id), step_id);
        },
        _ => {},
    }
}

proof fn lemma_link_child(cv: ContextView, p: PlanView, s: StepView, is_new: bool, k: int, oc: OpenView)
    ensures
        link_child(cv, p, s, is_new, k, oc) matches Some(c) ==> keeps_all_but(p, FlawView::OpenCondition(oc), c),
{
    match link_child(cv, p, s, is_new, k, oc) {
        None => {},
        Some(c) => {
            let steps = if is_new {
                seq![s] + p.steps
            } else {
                p.steps
            };
            let e = s.action.effects[k];
            let l = oc.as_literal()->0;
            let u = crate::bindings::unifier(cv.typing(types_at(cv, steps, p.fresh)), p.classes, e.literal.atom, s.id, l.atom, oc.step_id);
            let r = link_names(cv, p, steps, s, e, u);
            let t = cv.typing(types_at(cv, steps, r.fresh));
            let start = Agenda { opens: removed(p.opens, oc), binds: named_all(e, s.id, r.subst, u, u.len()) };
            lemma_goal_in_front(t, start, put(link_goal(e), r.subst), s.id);
            let a = with_goal(t, start, put(link_goal(e), r.subst), s.id)->0;
            lemma_goal_in_front(t, a, s.action.precondition, s.id);
            let last = link_agenda(t, p, s, is_new, e, oc, u, r.subst)->0;
            if is_new {
                lemma_ends_chain(last.opens, a.opens, start.opens);
            }
            lemma_ends_self(p.steps);
            lemma_ends_front(seq![s], p.steps, p.steps);
            lemma_ends_self(p.links);
            lemma_ends_front(seq![c.links[0]], p.links, p.links);
            assert(c.links =~= seq![c.links[0]] + p.links);
            lemma_ends_self(p.unsafes);
            let extra = c.unsafes.take(c.unsafes.len() - p.unsafes.len());
            assert(c.unsafes =~= extra + p.unsafes);
            lemma_ends_front(extra, p.unsafes, p.unsafes);
        },
    }
}

proof fn lemma_new_steps_keep(cv: ContextView, p: PlanView, oc: OpenView, achievers: Seq<(StepActionView, int)>, n: nat)
    ensures
        all_keep(p, FlawView::OpenCondition(oc), new_step_plans(cv, p, oc, achievers, n)),
    decreases n,
{
    if n > 0 {
        lemma_new_steps_keep(cv, p, oc, achievers, (n - 1) as nat);
        let (a, k) = achievers[n - 1];
        let s = StepView { id: (p.num_steps + 1) as usize, action: a };
        lemma_link_child(cv, p, s, true, k, oc);
        lemma_appended_keep(
            p,
            FlawView::OpenCondition(oc),
            new_step_plans(cv, p, oc, achievers, (n - 1) as nat),
            link_child(cv, p, s, true, k, oc),
        );
    }
}

proof fn lemma_reuse_by_step_keep(cv: ContextView, p: PlanView, oc: OpenView, s: StepView, achievers: Seq<(StepActionView, int)>, n: nat)
    ensures
        all_keep(p, FlawView::OpenCondition(oc), reuse_by_step(cv, p, oc, s, achievers, n)),
    decreases n,
{
    if n > 0 {
        lemma_reuse_by_step_keep(cv, p, oc, s, achievers, (n - 1) as nat);
        let (a, k) = achievers[n - 1];
        lemma_link_child(cv, p, s, false, k, oc);
        lemma_appended_keep(
            p,
            FlawView::OpenCondition(oc),
            reuse_by_step(cv, p, oc, s, achievers, (n - 1) as nat),
            link_child(cv, p, s, false, k, oc),
        );
    }
}

proof fn lemma_joined_keep(p: PlanView, flaw: FlawView, a: Seq<PlanView>, b: Seq<PlanView>)
    requires
        all_keep(p, flaw, a),
        all_keep(p, flaw, b),
    ensures
        all_keep(p, flaw, a + b),
{
    let ab = a + b;
    assert forall|i: int| 0 <= i < ab.len() implies keeps_all_but(p, flaw, #[trigger] ab[i]) by {
        if i < a.len() {
            assert(ab[i] == a[i]);
        } else {
            assert(ab[i] == b[i - a.len()]);
        }
    }
}

proof fn lemma_reuse_keep(cv: ContextView, p: PlanView, oc: OpenView, achievers: Seq<(StepActionView, int)>, n: nat)
    ensures
        all_keep(p, FlawView::OpenCondition(oc), reuse_plans(cv, p, oc, achievers, n)),
    decreases n,
{
    if n > 0 {
        lemma_reuse_keep(cv, p, oc, achievers, (n - 1) as nat);
        lemma_reuse_by_step_keep(cv, p, oc, p.steps[n - 1], achievers, achievers.len());
        lemma_joined_keep(
            p,
            FlawView::OpenCondition(oc),
            reuse_plans(cv, p, oc, achievers, (n - 1) as nat),
            reuse_by_step(cv, p, oc, p.steps[n - 1], achievers, achievers.len()),
        );
    }
}

proof fn lemma_absence_keeps(cv: ContextView, p: PlanView, oc: OpenView)
    ensures
        absence_plan(cv, p, oc) matches Some(c) ==> keeps_all_but(p, FlawView::OpenCondition(oc), c),
{
    match absence_plan(cv, p, oc) {
        None => {},
        Some(c) => {
            let t = p.typing(cv);
            let goal = absence(t, p.classes, cv.init.effects, oc.as_literal()->0.atom, oc.step_id, cv.init.effects.len())->0;
            lemma_goal_in_front(t, Agenda { opens: removed(p.opens, oc), binds: seq![] }, goal, crate::plan::INIT_ID);
            lemma_ends_self(p.steps);
            lemma_ends_self(p.links);
            lemma_ends_front(seq![c.links[0]], p.links, p.links);
            assert(c.links =~= seq![c.links[0]] + p.links);
            lemma_ends_self(p.unsafes);
            let extra = c.unsafes.take(c.unsafes.len() - p.unsafes.len());
            assert(c.unsafes =~= extra + p.unsafes);
            lemma_ends_front(extra, p.unsafes, p.unsafes);
        },
    }
}

proof fn lemma_disjuncts_keep(cv: ContextView, p: PlanView, oc: OpenView, ds: Seq<FormulaView>, n: nat)
    ensures
        all_keep(p, FlawView::OpenCondition(oc), disjunct_plans(cv, p, oc, ds, n)),
    decreases n,
{
    if n > 0 {
        lemma_disjuncts_keep(cv, p, oc, ds, (n - 1) as nat);
        let opens = removed(p.opens, oc);
        lemma_goal_in_front(p.typing(cv), Agenda { opens, binds: seq![] }, ds[n - 1], oc.step_id);
        lemma_ends_self(p.steps);
        lemma_ends_self(p.links);
        lemma_ends_self(p.unsafes);
        lemma_appended_keep(
            p,
            FlawView::OpenCondition(oc),
            disjunct_plans(cv, p, oc, ds, (n - 1) as nat),
            goal_plan(cv, p, opens, ds[n - 1], oc.step_id),
        );
    }
}

proof fn lemma_objects_keep(cv: ContextView, p: PlanView, oc: OpenView, v: Variable, w: Variable, os: Seq<Object>, n: nat)
    ensures
        all_keep(p, FlawView::OpenCondition(oc), object_plans(cv, p, oc, v, w, os, n)),
    decreases n,
{
    if n > 0 {
        lemma_objects_keep(cv, p, oc, v, w, os, (n - 1) as nat);
        lemma_ends_self(p.steps);
        lemma_ends_self(p.links);
        lemma_ends_self(p.unsafes);
        lemma_ends_self(removed(p.opens, oc));
        lemma_appended_keep(
            p,
            FlawView::OpenCondition(oc),
            object_plans(cv, p, oc, v, w, os, (n - 1) as nat),
            object_plan(cv, p, oc, v, w, os[n - 1]),
        );
    }
}

/// The children that resolve a flaw keep the steps, the links, the open conditions and
/// the threats of the plan in their order, without the flaw and with new ones in front.
pub proof fn refinement_keeps_all_but_the_flaw(cv: ContextView, p: PlanView, flaw: FlawView)
    ensures
        all_keep(p, flaw, flaw_plans(cv, p, flaw)),
{
    lemma_ends_self(p.steps);
    lemma_ends_self(p.links);
    lemma_ends_self(p.opens);
    lemma_ends_self(p.unsafes);
    match flaw {
        FlawView::Unsafe(u) => {
            let r = separation_names(cv, p, u);
            let q = PlanView { unsafes: removed(p.unsafes, u), fresh: r.fresh, ..p };
            lemma_goal_in_front(
                q.typing(cv),
                Agenda { opens: p.opens, binds: seq![] },
                separation(p, u, threat_unifier(cv, p, u), r),
                u.step_id,
            );
            let one = appended(seq![], separated_plan(cv, p, u));
            lemma_appended_keep(p, flaw, seq![], separated_plan(cv, p, u));
            let two = appended(one, ordered_plan(p, u, u.link.to_id, u.step_id));
            lemma_appended_keep(p, flaw, one, ordered_plan(p, u, u.link.to_id, u.step_id));
            lemma_appended_keep(p, flaw, two, ordered_plan(p, u, u.step_id, u.link.from_id));
        },
        FlawView::OpenCondition(oc) => {
            match oc.condition {
                FormulaView::Disjunction(ds) => {
                    lemma_disjuncts_keep(cv, p, oc, ds, ds.len());
                },
                FormulaView::Inequality(l, _, r, _) => {
                    if l is Variable && r is Variable {
                        let v = l->Variable_0;
                        let w = r->Variable_0;
                        let d1 = domain_of(cv, p, v, oc.step_id);
                        let d2 = domain_of(cv, p, w, oc.step_id);
                        lemma_objects_keep(cv, p, oc, v, w, d1, d1.len());
                        lemma_objects_keep(cv, p, oc, w, v, d2, d2.len());
                    }
                },
                _ => {
                    if oc.as_literal() is Some {
                        let achievers = cv.achievers(oc.as_literal()->0);
                        let n = achievers.len();
                        let a = new_step_plans(cv, p, oc, achievers, n);
                        let b = reuse_plans(cv, p, oc, achievers, p.steps.len());
                        lemma_new_steps_keep(cv, p, oc, achievers, n);
                        lemma_reuse_keep(cv, p, oc, achievers, p.steps.len());
                        lemma_joined_keep(p, flaw, a, b);
                        lemma_absence_keeps(cv, p, oc);
                        lemma_appended_keep(p, flaw, a + b, absence_plan(cv, p, oc));
                    }
                },
            }
        },
    }
}

/// Whether the step count of a plan is that of its steps without the initial and the
/// goal step.
pub open spec fn counts_steps(p: PlanView) -> bool {
    p.steps.len() == p.num_steps + 2
}

/// The first plan and all refinements of plans count their steps, and a refinement has
/// at most one step more than the plan.
pub proof fn plans_count_their_steps(cv: ContextView, p: PlanView, flaw: FlawView)
    ensures
        first_plan(cv) matches Some(q) ==> counts_steps(q) && q.num_steps == 0,
        counts_steps(p) ==> forall|i: int|
            0 <= i < flaw_plans(cv, p, flaw).len() ==> {
                let child = #[trigger] flaw_plans(cv, p, flaw)[i];
                counts_steps(child) && p.num_steps <= child.num_steps <= p.num_steps + 1
            },
{
    refinement_keeps_all_but_the_flaw(cv, p, flaw);
    let plans = flaw_plans(cv, p, flaw);
    assert forall|i: int| 0 <= i < plans.len() && counts_steps(p) implies {
        let child = #[trigger] plans[i];
        counts_steps(child) && p.num_steps <= child.num_steps <= p.num_steps + 1
    } by {
        assert(keeps_all_but(p, flaw, plans[i]));
    }
}

} // verus!
