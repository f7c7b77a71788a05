//! A flaw that is resolved is gone: no child has it again.
use vstd::prelude::*;

use crate::agenda::{foralls, foralls_all, instances, lemma_base_foralls, lemma_foralls_less, lemma_foralls_member, universal_base, with_goal, with_goals, Agenda};
use crate::flaws::{removed, FlawView, OpenView};
use crate::formula::{all_of, both, conjuncts, put, put_all, shadow, FormulaView};
use crate::plan::{flaw_plans, INIT_ID};
use crate::plan_model::{
    absence, absence_plan, appended, disjunct_plans, domain_of, link_agenda, link_child, link_goal, link_names, named_all, new_step_plans,
    object_plans, reuse_by_step, reuse_plans, types_at, PlanView,
};
use crate::refine_laws::{keeps_all_but, refinement_keeps_all_but_the_flaw};
use crate::search::ContextView;
use crate::step::{StepActionView, StepView};
use crate::terms::{Object, Term, Variable};
use crate::typing::Typing;

verus! {

/// The deepest nesting of disjunctions in the first `n` of a list of formulas.
pub open spec fn ors_all(fs: Seq<FormulaView>, n: nat) -> nat
    decreases fs, n,
{
    if n == 0 || n > fs.len() {
        0
    } else {
        let rest = ors_all(fs, (n - 1) as nat);
        let last = ors(fs[n - 1]);
        if last > rest {
            last
        } else {
            rest
        }
    }
}

/// The deepest nesting of disjunctions in a formula.
pub open spec fn ors(f: FormulaView) -> nat
    decreases f, 0nat,
{
    match f {
        FormulaView::Conjunction(cs) => ors_all(cs, cs.len()),
        FormulaView::Disjunction(ds) => 1 + ors_all(ds, ds.len()),
        FormulaView::Exists(_, body) => ors(*body),
        FormulaView::Forall(_, body) => ors(*body),
        _ => 0,
    }
}

proof fn lemma_ors_member(fs: Seq<FormulaView>, n: nat, i: int)
    requires
        0 <= i < n <= fs.len(),
    ensures
        ors(fs[i]) <= ors_all(fs, n),
    decreases n,
{
    if i < n - 1 {
        lemma_ors_member(fs, (n - 1) as nat, i);
    }
}

proof fn lemma_ors_bound(fs: Seq<FormulaView>, n: nat, d: nat)
    requires
        n <= fs.len(),
        forall|i: int| 0 <= i < n ==> ors(#[trigger] fs[i]) <= d,
    ensures
        ors_all(fs, n) <= d,
    decreases n,
{
    if n > 0 {
        lemma_ors_bound(fs, (n - 1) as nat, d);
        assert(ors(fs[n - 1]) <= d);
    }
}

proof fn lemma_ors_conjunct(f: FormulaView, i: int)
    requires
        0 <= i < conjuncts(f).len(),
    ensures
        ors(conjuncts(f)[i]) <= ors(f),
{
    match f {
        FormulaView::Conjunction(cs) => {
            lemma_ors_member(cs, cs.len(), i);
        },
        _ => {},
    }
}

proof fn lemma_ors_both(f: FormulaView, g: FormulaView, d: nat)
    requires
        ors(f) <= d,
        ors(g) <= d,
    ensures
        ors(both(f, g)) <= d,
{
    if !(f is False || g is False || f is True || g is True) {
        let a = conjuncts(f);
        let b = conjuncts(g);
        let ab = a + b;
        assert forall|i: int| 0 <= i < ab.len() implies ors(#[trigger] ab[i]) <= d by {
            if i < a.len() {
                lemma_ors_conjunct(f, i);
            } else {
                lemma_ors_conjunct(g, i - a.len());
            }
        }
        lemma_ors_bound(ab, ab.len(), d);
    }
}

proof fn lemma_ors_all_of(fs: Seq<FormulaView>, d: nat)
    requires
        forall|i: int| 0 <= i < fs.len() ==> ors(#[trigger] fs[i]) <= d,
    ensures
        ors(all_of(fs)) <= d,
    decreases fs.len(),
{
    if fs.len() > 0 {
        let front = fs.drop_last();
        assert forall|i: int| 0 <= i < front.len() implies ors(#[trigger] front[i]) <= d by {
            assert(front[i] == fs[i]);
        }
        lemma_ors_all_of(front, d);
        assert(ors(fs[fs.len() - 1]) <= d);
        lemma_ors_both(all_of(front), fs.last(), d);
    }
}

proof fn lemma_ors_put(f: FormulaView, subst: Seq<(Variable, Term)>)
    ensures
        ors(put(f, subst)) == ors(f),
    decreases f, 0nat,
{
    match f {
        FormulaView::Conjunction(cs) => {
            lemma_ors_put_all(cs, subst, cs.len());
        },
        FormulaView::Disjunction(ds) => {
            lemma_ors_put_all(ds, subst, ds.len());
        },
        FormulaView::Exists(params, body) => {
            lemma_ors_put(*body, shadow(subst, params));
        },
        FormulaView::Forall(params, body) => {
            lemma_ors_put(*body, shadow(subst, params));
        },
        _ => {},
    }
}

proof fn lemma_ors_put_all(fs: Seq<FormulaView>, subst: Seq<(Variable, Term)>, n: nat)
    requires
        n <= fs.len(),
    ensures
        ors_all(put_all(fs, subst), n) == ors_all(fs, n),
    decreases fs, n,
{
    if n > 0 {
        lemma_ors_put_all(fs, subst, (n - 1) as nat);
        lemma_ors_put(fs[n - 1], subst);
        assert(put_all(fs, subst)[n - 1] == put(fs[n - 1], subst));
    }
}

/// Expanding a quantifier nests disjunctions no deeper than its body.
proof fn lemma_ors_base(t: Typing, params: Seq<Variable>, body: FormulaView, id: usize)
    ensures
        ors(universal_base(t, params, body, id)) <= ors(body),
    decreases params.len(),
{
    if params.len() > 0 {
        let os = t.range(t.var_ty(params[0], id));
        let fs = instances(t, params, body, id, os);
        assert forall|i: int| 0 <= i < fs.len() implies ors(#[trigger] fs[i]) <= ors(body) by {
            let one = put(body, seq![(params[0], Term::Object(os[i]))]);
            lemma_ors_put(body, seq![(params[0], Term::Object(os[i]))]);
            lemma_ors_base(t, params.drop_first(), one, id);
        }
        lemma_ors_all_of(fs, ors(body));
    }
}

/// What comes in front of the open conditions belongs to the step and nests
/// disjunctions no deeper than `d`.
spec fn adds_below(before: Seq<OpenView>, after: Seq<OpenView>, id: usize, d: nat) -> bool {
    &&& after.len() >= before.len()
    &&& after.skip(after.len() - before.len()) == before
    &&& forall|i: int| 0 <= i < after.len() - before.len() ==> (#[trigger] after[i]).step_id == id && ors(after[i].condition) <= d
}

proof fn lemma_adds_chain(a: Seq<OpenView>, b: Seq<OpenView>, c: Seq<OpenView>, id: usize, d: nat)
    requires
        adds_below(a, b, id, d),
        adds_below(b, c, id, d),
    ensures
        adds_below(a, c, id, d),
{
    assert(c.skip(c.len() - a.len()) =~= b.skip(b.len() - a.len()));
    assert forall|i: int| 0 <= i < c.len() - a.len() implies (#[trigger] c[i]).step_id == id && ors(c[i].condition) <= d by {
        if i >= c.len() - b.len() {
            assert(c[i] == b[i - (c.len() - b.len())]);
        }
    }
}

proof fn lemma_adds_more(a: Seq<OpenView>, b: Seq<OpenView>, id: usize, d: nat, e: nat)
    requires
        adds_below(a, b, id, d),
        d <= e,
    ensures
        adds_below(a, b, id, e),
{
}

proof fn lemma_goals_add(t: Typing, a: Agenda, fs: Seq<FormulaView>, n: nat, id: usize)
    requires
        n <= fs.len(),
    ensures
        with_goals(t, a, fs, n, id) matches Some(b) ==> adds_below(a.opens, b.opens, id, ors_all(fs, n)),
    decreases foralls_all(fs, n), fs, n,
{
    assert(a.opens.skip(0) =~= a.opens);
    if n > 0 {
        lemma_foralls_member(fs, n, n - 1);
        if n > 1 {
            lemma_foralls_less(fs, n);
        }
        lemma_goal_adds(t, a, fs[n - 1], id);
        match with_goal(t, a, fs[n - 1], id) {
            None => {},
            Some(b) => {
                lemma_goals_add(t, b, fs, (n - 1) as nat, id);
                match with_goals(t, b, fs, (n - 1) as nat, id) {
                    None => {},
                    Some(c) => {
                        let d = ors_all(fs, n);
                        lemma_adds_more(a.opens, b.opens, id, ors(fs[n - 1]), d);
                        lemma_adds_more(b.opens, c.opens, id, ors_all(fs, (n - 1) as nat), d);
                        lemma_adds_chain(a.opens, b.opens, c.opens, id, d);
                    },
                }
            },
        }
    }
}

/// What a goal opens belongs to its step and nests disjunctions no deeper than the goal.
proof fn lemma_goal_adds(t: Typing, a: Agenda, f: FormulaView, id: usize)
    ensures
        with_goal(t, a, f, id) matches Some(b) ==> adds_below(a.opens, b.opens, id, ors(f)),
    decreases foralls(f), f, 0nat,
{
    assert(a.opens.skip(0) =~= a.opens);
    match f {
        FormulaView::Atom(_) | FormulaView::Negation(_) | FormulaView::Disjunction(_) => {
            let b = with_goal(t, a, f, id)->0;
            assert(b.opens.skip(1) =~= a.opens);
        },
        FormulaView::Conjunction(cs) => {
            lemma_goals_add(t, a, cs, cs.len(), id);
        },
        FormulaView::Exists(_, body) => {
            lemma_goal_adds(t, a, *body, id);
        },
        FormulaView::Forall(params, body) => {
            lemma_base_foralls(t, params, *body, id);
            let base = universal_base(t, params, *body, id);
            lemma_goal_adds(t, a, base, id);
            lemma_ors_base(t, params, *body, id);
            match with_goal(t, a, base, id) {
                None => {},
                Some(b) => {
                    lemma_adds_more(a.opens, b.opens, id, ors(base), ors(f));
                },
            }
        },
        _ => {},
    }
}

/// Whether a value stands in a list exactly once.
pub open spec fn is_once<V>(s: Seq<V>, x: V) -> bool {
    s.contains(x) && forall|i: int, j: int| 0 <= i < s.len() && 0 <= j < s.len() && #[trigger] s[i] == x && #[trigger] s[j] == x ==> i == j
}

/// What stands in a list once is gone when it is removed.
proof fn lemma_once_removed<V>(s: Seq<V>, x: V)
    requires
        is_once(s, x),
    ensures
        !removed(s, x).contains(x),
    decreases s.len(),
{
    let r = removed(s, x);
    let rest = s.drop_first();
    if s[0] == x {
        if rest.contains(x) {
            let j = choose|j: int| 0 <= j < rest.len() && rest[j] == x;
            assert(s[j + 1] == x);
        }
    } else {
        let k = choose|k: int| 0 <= k < s.len() && s[k] == x;
        assert(rest[k - 1] == x);
        assert forall|i: int, j: int| 0 <= i < rest.len() && 0 <= j < rest.len() && #[trigger] rest[i] == x && #[trigger] rest[j] == x implies i
            == j by {
            assert(s[i + 1] == x && s[j + 1] == x);
        }
        lemma_once_removed(rest, x);
        if r.contains(x) {
            let i = choose|i: int| 0 <= i < r.len() && r[i] == x;
            assert(removed(rest, x)[i - 1] == x);
        }
    }
}

/// Whether the flaw is not among the flaws of a plan.
pub open spec fn lacks(p: PlanView, flaw: FlawView) -> bool {
    match flaw {
        FlawView::OpenCondition(oc) => !p.opens.contains(oc),
        FlawView::Unsafe(u) => !p.unsafes.contains(u),
    }
}

pub open spec fn all_lack(plans: Seq<PlanView>, flaw: FlawView) -> bool {
    forall|i: int| 0 <= i < plans.len() ==> lacks(#[trigger] plans[i], flaw)
}

/// Whether the plan has the flaw once. A literal is no condition of the initial step.
pub open spec fn has_once(p: PlanView, flaw: FlawView) -> bool {
    match flaw {
        FlawView::OpenCondition(oc) => is_once(p.opens, oc) && (oc.as_literal() is Some ==> oc.step_id != INIT_ID),
        FlawView::Unsafe(u) => is_once(p.unsafes, u),
    }
}

proof fn lemma_appended_lack(plans: Seq<PlanView>, child: Option<PlanView>, flaw: FlawView)
    requires
        all_lack(plans, flaw),
        child matches Some(c) ==> lacks(c, flaw),
    ensures
        all_lack(appended(plans, child), flaw),
{
    let more = appended(plans, child);
    assert forall|i: int| 0 <= i < more.len() implies lacks(#[trigger] more[i], flaw) by {
        if i < plans.len() {
            assert(more[i] == plans[i]);
        }
    }
}

proof fn lemma_joined_lack(a: Seq<PlanView>, b: Seq<PlanView>, flaw: FlawView)
    requires
        all_lack(a, flaw),
        all_lack(b, flaw),
    ensures
        all_lack(a + b, flaw),
{
    let ab = a + b;
    assert forall|i: int| 0 <= i < ab.len() implies lacks(#[trigger] ab[i], flaw) by {
        if i < a.len() {
            assert(ab[i] == a[i]);
        } else {
            assert(ab[i] == b[i - a.len()]);
        }
    }
}

/// Conditions of another step, or with shallower disjunctions, are no such condition.
proof fn lemma_added_lack(opens: Seq<OpenView>, oc: OpenView, after: Seq<OpenView>, id: usize, d: nat)
    requires
        is_once(opens, oc),
        adds_below(removed(opens, oc), after, id, d),
        id != oc.step_id || d < ors(oc.condition),
    ensures
        !after.contains(oc),
{
    lemma_once_removed(opens, oc);
    let left = removed(opens, oc);
    if after.contains(oc) {
        let i = choose|i: int| 0 <= i < after.len() && after[i] == oc;
        let n = after.len() - left.len();
        if i >= n {
            assert(after.skip(n)[i - n] == after[i]);
            assert(left[i - n] == oc);
        }
    }
}

proof fn lemma_link_lacks(cv: ContextView, p: PlanView, s: StepView, is_new: bool, k: int, oc: OpenView)
    requires
        is_once(p.opens, oc),
        oc.step_id != INIT_ID,
    ensures
        link_child(cv, p, s, is_new, k, oc) matches Some(c) ==> !c.opens.contains(oc),
{
    match link_child(cv, p, s, is_new, k, oc) {
        None => {},
        Some(c) => {
            let steps = if is_new {
                seq![s] + p.steps
            } else {
                p.steps
            };
            let e = s.action.effects[k];
            let l = oc.as_literal()->0;
            let u = crate::bindings::unifier(cv.typing(types_at(cv, steps, p.fresh)), p.classes, e.literal.atom, s.id, l.atom, oc.step_id);
            let r = link_names(cv, p, steps, s, e, u);
            let t = cv.typing(types_at(cv, steps, r.fresh));
            let start = Agenda { opens: removed(p.opens, oc), binds: named_all(e, s.id, r.subst, u, u.len()) };
            let goal = put(link_goal(e), r.subst);
            lemma_goal_adds(t, start, goal, s.id);
            let a = with_goal(t, start, goal, s.id)->0;
            lemma_goal_adds(t, a, s.action.precondition, s.id);
            let last = link_agenda(t, p, s, is_new, e, oc, u, r.subst)->0;
            let d = ors(goal) + ors(s.action.precondition);
            lemma_adds_more(start.opens, a.opens, s.id, ors(goal), d);
            if is_new {
                lemma_adds_more(a.opens, last.opens, s.id, ors(s.action.precondition), d);
                lemma_adds_chain(start.opens, a.opens, last.opens, s.id, d);
            }
            assert(s.id != oc.step_id);
            lemma_added_lack(p.opens, oc, last.opens, s.id, d);
        },
    }
}

proof fn lemma_new_steps_lack(cv: ContextView, p: PlanView, oc: OpenView, achievers: Seq<(StepActionView, int)>, n: nat)
    requires
        is_once(p.opens, oc),
        oc.step_id != INIT_ID,
    ensures
        all_lack(new_step_plans(cv, p, oc, achievers, n), FlawView::OpenCondition(oc)),
    decreases n,
{
    if n > 0 {
        lemma_new_steps_lack(cv, p, oc, achievers, (n - 1) as nat);
        let (a, k) = achievers[n - 1];
        let s = StepView { id: (p.num_steps + 1) as usize, action: a };
        lemma_link_lacks(cv, p, s, true, k, oc);
        lemma_appended_lack(
            new_step_plans(cv, p, oc, achievers, (n - 1) as nat),
            link_child(cv, p, s, true, k, oc),
            FlawView::OpenCondition(oc),
        );
    }
}

proof fn lemma_reuse_by_step_lack(cv: ContextView, p: PlanView, oc: OpenView, s: StepView, achievers: Seq<(StepActionView, int)>, n: nat)
    requires
        is_once(p.opens, oc),
        oc.step_id != INIT_ID,
    ensures
        all_lack(reuse_by_step(cv, p, oc, s, achievers, n), FlawView::OpenCondition(oc)),
    decreases n,
{
    if n > 0 {
        lemma_reuse_by_step_lack(cv, p, oc, s, achievers, (n - 1) as nat);
        let (a, k) = achievers[n - 1];
        lemma_link_lacks(cv, p, s, false, k, oc);
        lemma_appended_lack(
            reuse_by_step(cv, p, oc, s, achievers, (n - 1) as nat),
            link_child(cv, p, s, false, k, oc),
            FlawView::OpenCondition(oc),
        );
    }
}

proof fn lemma_reuse_lack(cv: ContextView, p: PlanView, oc: OpenView, achievers: Seq<(StepActionView, int)>, n: nat)
    requires
        is_once(p.opens, oc),
        oc.step_id != INIT_ID,
    ensures
        all_lack(reuse_plans(cv, p, oc, achievers, n), FlawView::OpenCondition(oc)),
    decreases n,
{
    if n > 0 {
        lemma_reuse_lack(cv, p, oc, achievers, (n - 1) as nat);
        lemma_reuse_by_step_lack(cv, p, oc, p.steps[n - 1], achievers, achievers.len());
        lemma_joined_lack(
            reuse_plans(cv, p, oc, achievers, (n - 1) as nat),
            reuse_by_step(cv, p, oc, p.steps[n - 1], achievers, achievers.len()),
            FlawView::OpenCondition(oc),
        );
    }
}

proof fn lemma_disjuncts_lack(cv: ContextView, p: PlanView, oc: OpenView, ds: Seq<FormulaView>, n: nat)
    requires
        is_once(p.opens, oc),
        oc.condition == FormulaView::Disjunction(ds),
        n <= ds.len(),
    ensures
        all_lack(disjunct_plans(cv, p, oc, ds, n), FlawView::OpenCondition(oc)),
    decreases n,
{
    if n > 0 {
        lemma_disjuncts_lack(cv, p, oc, ds, (n - 1) as nat);
        let opens = removed(p.opens, oc);
        let start = Agenda { opens, binds: seq![] };
        let child = crate::plan_model::goal_plan(cv, p, opens, ds[n - 1], oc.step_id);
        lemma_goal_adds(p.typing(cv), start, ds[n - 1], oc.step_id);
        lemma_ors_member(ds, ds.len(), n - 1);
        match with_goal(p.typing(cv), start, ds[n - 1], oc.step_id) {
            None => {},
            Some(a) => {
                lemma_added_lack(p.opens, oc, a.opens, oc.step_id, ors(ds[n - 1]));
            },
        }
        lemma_appended_lack(disjunct_plans(cv, p, oc, ds, (n - 1) as nat), child, FlawView::OpenCondition(oc));
    }
}

proof fn lemma_objects_lack(cv: ContextView, p: PlanView, oc: OpenView, v: Variable, w: Variable, os: Seq<Object>, n: nat)
    requires
        is_once(p.opens, oc),
    ensures
        all_lack(object_plans(cv, p, oc, v, w, os, n), FlawView::OpenCondition(oc)),
    decreases n,
{
    if n > 0 {
        lemma_objects_lack(cv, p, oc, v, w, os, (n - 1) as nat);
        lemma_once_removed(p.opens, oc);
        lemma_appended_lack(
            object_plans(cv, p, oc, v, w, os, (n - 1) as nat),
            crate::plan_model::object_plan(cv, p, oc, v, w, os[n - 1]),
            FlawView::OpenCondition(oc),
        );
    }
}

proof fn lemma_absence_lacks(cv: ContextView, p: PlanView, oc: OpenView)
    requires
        is_once(p.opens, oc),
        oc.step_id != INIT_ID,
    ensures
        absence_plan(cv, p, oc) matches Some(c) ==> lacks(c, FlawView::OpenCondition(oc)),
{
    match absence_plan(cv, p, oc) {
        None => {},
        Some(c) => {
            let t = p.typing(cv);
            let goal = absence(t, p.classes, cv.init.effects, oc.as_literal()->0.atom, oc.step_id, cv.init.effects.len())->0;
            let start = Agenda { opens: removed(p.opens, oc), binds: seq![] };
            lemma_goal_adds(t, start, goal, INIT_ID);
            lemma_added_lack(p.opens, oc, c.opens, INIT_ID, ors(goal));
        },
    }
}

/// A flaw that a plan has once is not among the flaws of any child that resolves it:
/// nothing that the child adds opens the same condition again.
pub proof fn resolved_flaws_are_gone(cv: ContextView, p: PlanView, flaw: FlawView)
    requires
        has_once(p, flaw),
    ensures
        all_lack(flaw_plans(cv, p, flaw), flaw),
{
    match flaw {
        FlawView::Unsafe(u) => {
            refinement_keeps_all_but_the_flaw(cv, p, flaw);
            lemma_once_removed(p.unsafes, u);
            let plans = flaw_plans(cv, p, flaw);
            assert forall|i: int| 0 <= i < plans.len() implies lacks(#[trigger] plans[i], flaw) by {
                assert(keeps_all_but(p, flaw, plans[i]));
            }
        },
        FlawView::OpenCondition(oc) => {
            match oc.condition {
                FormulaView::Disjunction(ds) => {
                    lemma_disjuncts_lack(cv, p, oc, ds, ds.len());
                },
                FormulaView::Inequality(l, _, r, _) => {
                    if l is Variable && r is Variable {
                        let v = l->Variable_0;
                        let w = r->Variable_0;
                        let d1 = domain_of(cv, p, v, oc.step_id);
                        let d2 = domain_of(cv, p, w, oc.step_id);
                        lemma_objects_lack(cv, p, oc, v, w, d1, d1.len());
                        lemma_objects_lack(cv, p, oc, w, v, d2, d2.len());
                    }
                },
                _ => {
                    if oc.as_literal() is Some {
                        let achievers = cv.achievers(oc.as_literal()->0);
                        let n = achievers.len();
                        let a = new_step_plans(cv, p, oc, achievers, n);
                        let b = reuse_plans(cv, p, oc, achievers, p.steps.len());
                        lemma_new_steps_lack(cv, p, oc, achievers, n);
                        lemma_reuse_lack(cv, p, oc, achievers, p.steps.len());
                        lemma_joined_lack(a, b, flaw);
                        lemma_absence_lacks(cv, p, oc);
                        lemma_appended_lack(a + b, absence_plan(cv, p, oc), flaw);
                    }
                },
            }
        },
    }
}

} // verus!
