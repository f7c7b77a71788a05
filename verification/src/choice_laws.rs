//! Refinement leaves every way to execute a plan open: for each flaw, a way that the plan
//! allows and that deals with the flaw is one that some child allows.
use vstd::prelude::*;

use crate::agenda::{binding_of, id_or, with_equation, with_goal, with_goals, Agenda};
use crate::bindings::{bound_all, literals_unify, may_differ, term_class, unifier, Binding, Class};
use crate::bindings_coherence::{lemma_term_found, unifiers_are_equalities};
use crate::bindings_laws::{
    admits, admits_class, bindings_are_exact, equal_atoms, meets, meets_all, refused_bindings_fail, sound, takes, unifier_is_most_general,
    unifier_unifies, value, well_typed,
};
use crate::causal_laws::{
    is_causal, is_fair, is_of_task, is_plain, is_possible, is_served, is_simple, is_simple_task, is_so, lemma_absence, lemma_hierarchy, lemma_link_names, lemma_plain_joined,
    lemma_plain_negated, lemma_removed_from, lemma_some_separated, lemma_swapped, world_at,
};
use crate::effect::EffectView;
use crate::flaws::{removed, OpenView, UnsafeView};
use crate::formula::{negated, put_nothing, AtomView, FormulaView, LiteralView};
use crate::formula_laws::{conjunction_is_exact, disjunction_is_exact, negation_is_exact};
use crate::orderings::{comes_before, may_come_before, orderable, ordered_pair, with_pair};
use crate::plan::{GOAL_ID, INIT_ID};
use crate::plan_model::{
    absence, absence_plan, appended, disjunct_plans, goal_plan, is_threat, link_agenda, link_child, link_goal, link_order, linked, new_step_plans, open_plans, ordered_plan, parting, reuse_by_step,
    reuse_plans, separated_plan, separation, separation_names, some_parted, some_separated, threat_unifier, touches_parameter, types_at, unsafe_plans, PlanView,
    Renaming,
};
use crate::plan_bindings_laws::arising_looks_at_own_variables;
use crate::plan_scope_laws::scoped_plans_are_settled;
use crate::predicates::Predicate;
use crate::search::{effects_among, effects_for, ContextView};
use crate::step::{StepActionView, StepView};
use crate::terms::{Object, Term, Variable};
use crate::typing::Typing;

verus! {

/// Whether a plan has a step with an id.
pub open spec fn has_id(p: PlanView, id: usize) -> bool {
    exists|i: int| 0 <= i < p.steps.len() && (#[trigger] p.steps[i]).id == id
}

/// Whether the steps of a plan happen at different times, in an order that it allows.
pub open spec fn is_allowed(p: PlanView, pos: spec_fn(usize) -> int) -> bool {
    &&& forall|a: usize, b: usize| #[trigger] has_id(p, a) && #[trigger] has_id(p, b) && a != b ==> pos(a) != pos(b)
    &&& forall|a: usize, b: usize|
        has_id(p, a) && has_id(p, b) && #[trigger] comes_before(p.order, a as int, b as int) ==> pos(a) < pos(b)
}

/// Whether a step has all it had, where the facts at one step are the given ones.
pub open spec fn stays_served(
    p: PlanView,
    q: PlanView,
    s: spec_fn(Variable, usize) -> Object,
    facts: Set<(Predicate, Seq<Object>)>,
    step: usize,
) -> bool {
    forall|id: usize, f: Set<(Predicate, Seq<Object>)>|
        is_served(p, s, f, id) && (id == step ==> f == facts) ==> #[trigger] is_served(q, s, f, id)
}

proof fn lemma_ordered_allowed(p: PlanView, q: PlanView, pos: spec_fn(usize) -> int, i: usize, j: usize)
    requires
        is_allowed(p, pos),
        has_id(p, i),
        has_id(p, j),
        pos(i) < pos(j),
        q.steps == p.steps,
        ordered_pair(p.order, i as int, j as int) == Some(q.order),
    ensures
        is_allowed(q, pos),
{
    assert forall|a: usize| #[trigger] has_id(q, a) implies has_id(p, a) by {}
    assert forall|a: usize, b: usize| #[trigger] has_id(q, a) && #[trigger] has_id(q, b) && a != b implies pos(a) != pos(b) by {
        assert(has_id(p, a) && has_id(p, b));
    }
    assert forall|a: usize, b: usize| has_id(q, a) && has_id(q, b) && #[trigger] comes_before(q.order, a as int, b as int) implies pos(a) < pos(b) by {
        assert(has_id(p, a) && has_id(p, b));
        if !comes_before(p.order, a as int, b as int) {
            assert(with_pair(p.order, i as int, j as int).contains((a as int, b as int)));
            if a != i {
                assert(comes_before(p.order, a as int, i as int));
            }
            if b != j {
                assert(comes_before(p.order, j as int, b as int));
            }
        }
    }
}

proof fn lemma_same_allowed(p: PlanView, q: PlanView, pos: spec_fn(usize) -> int)
    requires
        is_allowed(p, pos),
        q.steps == p.steps,
        q.order == p.order,
    ensures
        is_allowed(q, pos),
{
    assert forall|a: usize| #[trigger] has_id(q, a) implies has_id(p, a) by {}
    assert forall|a: usize, b: usize| #[trigger] has_id(q, a) && #[trigger] has_id(q, b) && a != b implies pos(a) != pos(b) by {
        assert(has_id(p, a) && has_id(p, b));
    }
    assert forall|a: usize, b: usize| has_id(q, a) && has_id(q, b) && #[trigger] comes_before(q.order, a as int, b as int) implies pos(a) < pos(b) by {
        assert(has_id(p, a) && has_id(p, b));
        assert(comes_before(p.order, a as int, b as int));
    }
}

/// A goal without quantifiers that holds is taken on, and what it adds holds.
proof fn lemma_goal_taken(t: Typing, s: spec_fn(Variable, usize) -> Object, facts: Set<(Predicate, Seq<Object>)>, a: Agenda, f: FormulaView, id: usize)
    requires
        is_plain(f),
        world_at(s, facts, id).holds(f),
        meets_all(s, a.binds),
    ensures
        with_goal(t, a, f, id) is Some,
        meets_all(s, with_goal(t, a, f, id)->0.binds),
        with_goal(t, a, f, id)->0.opens.len() >= a.opens.len(),
        forall|i: int| 0 <= i < with_goal(t, a, f, id)->0.opens.len() ==> a.opens.contains(#[trigger] with_goal(t, a, f, id)->0.opens[i]) || (with_goal(
            t,
            a,
            f,
            id,
        )->0.opens[i].step_id == id && world_at(s, facts, id).holds(with_goal(t, a, f, id)->0.opens[i].condition)),
    decreases f, 0nat,
{
    let w = world_at(s, facts, id);
    match f {
        FormulaView::Atom(_) | FormulaView::Negation(_) | FormulaView::Disjunction(_) => {
            let b = with_goal(t, a, f, id)->0;
            assert forall|i: int| 0 <= i < b.opens.len() implies a.opens.contains(#[trigger] b.opens[i]) || (b.opens[i].step_id == id && w.holds(
                b.opens[i].condition,
            )) by {
                if i > 0 {
                    assert(b.opens[i] == a.opens[i - 1]);
                }
            }
        },
        FormulaView::Equality(l, li, r, ri) => {
            lemma_equation_taken(s, facts, a, l, li, r, ri, id, true);
        },
        FormulaView::Inequality(l, li, r, ri) => {
            lemma_equation_taken(s, facts, a, l, li, r, ri, id, false);
        },
        FormulaView::Conjunction(cs) => {
            lemma_goals_taken(t, s, facts, a, cs, cs.len(), id);
        },
        _ => {},
    }
}

proof fn lemma_equation_taken(
    s: spec_fn(Variable, usize) -> Object,
    facts: Set<(Predicate, Seq<Object>)>,
    a: Agenda,
    l: Term,
    li: Option<usize>,
    r: Term,
    ri: Option<usize>,
    id: usize,
    equality: bool,
)
    requires
        (world_at(s, facts, id).value(l, li) == world_at(s, facts, id).value(r, ri)) == equality,
        meets_all(s, a.binds),
    ensures
        with_equation(a, l, li, r, ri, id, equality) is Some,
        meets_all(s, with_equation(a, l, li, r, ri, id, equality)->0.binds),
        with_equation(a, l, li, r, ri, id, equality)->0.opens == a.opens,
{
    if !(l is Object && r is Object) {
        let x = binding_of(l, id_or(li, id), r, id_or(ri, id), equality);
        assert(meets(s, x));
        let b = with_equation(a, l, li, r, ri, id, equality)->0;
        assert forall|i: int| 0 <= i < b.binds.len() implies meets(s, #[trigger] b.binds[i]) by {
            if i < a.binds.len() {
                assert(b.binds[i] == a.binds[i]);
            }
        }
    }
}

proof fn lemma_goals_taken(
    t: Typing,
    s: spec_fn(Variable, usize) -> Object,
    facts: Set<(Predicate, Seq<Object>)>,
    a: Agenda,
    fs: Seq<FormulaView>,
    n: nat,
    id: usize,
)
    requires
        n <= fs.len(),
        forall|i: int| 0 <= i < fs.len() ==> is_plain(#[trigger] fs[i]),
        forall|i: int| 0 <= i < fs.len() ==> world_at(s, facts, id).holds(#[trigger] fs[i]),
        meets_all(s, a.binds),
    ensures
        with_goals(t, a, fs, n, id) is Some,
        meets_all(s, with_goals(t, a, fs, n, id)->0.binds),
        with_goals(t, a, fs, n, id)->0.opens.len() >= a.opens.len(),
        forall|i: int|
            0 <= i < with_goals(t, a, fs, n, id)->0.opens.len() ==> a.opens.contains(#[trigger] with_goals(t, a, fs, n, id)->0.opens[i]) || (
            with_goals(t, a, fs, n, id)->0.opens[i].step_id == id && world_at(s, facts, id).holds(
                with_goals(t, a, fs, n, id)->0.opens[i].condition,
            )),
    decreases fs, n,
{
    if n > 0 {
        lemma_goal_taken(t, s, facts, a, fs[n - 1], id);
        let m = with_goal(t, a, fs[n - 1], id)->0;
        lemma_goals_taken(t, s, facts, m, fs, (n - 1) as nat, id);
        let b = with_goals(t, a, fs, n, id)->0;
        assert(b == with_goals(t, m, fs, (n - 1) as nat, id)->0);
        assert forall|i: int| 0 <= i < b.opens.len() implies a.opens.contains(#[trigger] b.opens[i]) || (b.opens[i].step_id == id && world_at(
            s,
            facts,
            id,
        ).holds(b.opens[i].condition)) by {
            if m.opens.contains(b.opens[i]) {
                let k = choose|k: int| 0 <= k < m.opens.len() && m.opens[k] == b.opens[i];
                assert(a.opens.contains(m.opens[k]) || m.opens[k].step_id == id);
            }
        }
    } else {
        assert forall|i: int| 0 <= i < a.opens.len() implies a.opens.contains(#[trigger] a.opens[i]) by {}
    }
}

/// Terms that a plan's bindings do not let differ stand for the same.
proof fn lemma_may_differ(sets: Seq<Class>, high: usize, s: spec_fn(Variable, usize) -> Object, b: Binding)
    requires
        admits(sets, s),
        s(b.var, b.var_id) != value(s, b.term, b.term_id),
    ensures
        may_differ(sets, high, b.var, b.var_id, b.term, b.term_id),
{
    lemma_term_found(sets, b.term, b.term_id);
    if let Some(i) = term_class(sets, b.term, b.term_id) {
        if sets[i].members.contains((b.var, b.var_id)) {
            assert(admits_class(sets[i], s));
            let o = choose|o: Object| #[trigger] takes(sets[i], s, o);
            assert(s(b.var, b.var_id) == o);
            assert(value(s, b.term, b.term_id) == o);
        }
    }
}

/// Where some binding fails, what separates a threat holds.
proof fn lemma_separates(
    p: PlanView,
    u: UnsafeView,
    s: spec_fn(Variable, usize) -> Object,
    facts: Set<(Predicate, Seq<Object>)>,
    bs: Seq<Binding>,
    n: nat,
    k: int,
)
    requires
        admits(p.classes, s),
        u.effect.parameters.len() == 0,
        0 <= k < n <= bs.len(),
        s(bs[k].var, bs[k].var_id) != value(s, bs[k].term, bs[k].term_id),
    ensures
        world_at(s, facts, u.step_id).holds(some_separated(p, u, bs, n)),
    decreases n,
{
    let w = world_at(s, facts, u.step_id);
    let b = bs[n - 1];
    let rest = some_separated(p, u, bs, (n - 1) as nat);
    disjunction_is_exact(w, rest, parting(b));
    if k == n - 1 {
        lemma_may_differ(p.classes, p.high, s, b);
        assert(!touches_parameter(u.effect, u.step_id, b));
        assert(w.holds(parting(b)));
    } else {
        lemma_separates(p, u, s, facts, bs, (n - 1) as nat, k);
    }
}

proof fn lemma_appended_has(plans: Seq<PlanView>, child: Option<PlanView>, q: PlanView)
    requires
        plans.contains(q) || child == Some(q),
    ensures
        appended(plans, child).contains(q),
{
    let all = appended(plans, child);
    if plans.contains(q) {
        let i = choose|i: int| 0 <= i < plans.len() && plans[i] == q;
        assert(all[i] == q);
    } else {
        assert(all[plans.len() as int] == q);
    }
}

/// Where a threat's effect says something else or does not take place, separating it is
/// possible.
proof fn lemma_separable(
    cv: ContextView,
    p: PlanView,
    u: UnsafeView,
    s: spec_fn(Variable, usize) -> Object,
    pos: spec_fn(usize) -> int,
    facts: Set<(Predicate, Seq<Object>)>,
)
    requires
        is_simple_task(cv),
        cv.fresh_base <= u32::MAX,
        sound(p.typing(cv), p.classes),
        p.fresh.len() == 0,
        u.effect.parameters.len() == 0,
        is_plain(u.effect.condition),
        is_threat(cv, p, u),
        is_possible(cv, p, s),
        is_allowed(p, pos),
        !equal_atoms(s, u.link.condition.atom, u.link.to_id, u.effect.literal.atom, u.step_id) || !world_at(s, facts, u.step_id).holds(
            u.effect.condition,
        ),
    ensures
        separated_plan(cv, p, u) matches Some(q) && is_possible(cv, q, s) && is_allowed(q, pos) && stays_served(p, q, s, facts, u.step_id),
{
    let t = p.typing(cv);
    let w = world_at(s, facts, u.step_id);
    let r = separation_names(cv, p, u);
    assert(r == (Renaming { subst: seq![], fresh: p.fresh }));
    let bs = threat_unifier(cv, p, u);
    let apart = some_separated(p, u, bs, bs.len());
    let f = separation(p, u, bs, r);
    unifiers_are_equalities(t, p.classes, u.link.condition.atom, u.link.to_id, u.effect.literal.atom, u.step_id);
    lemma_some_separated(s, facts, p, u, bs, bs.len());
    lemma_plain_negated(u.effect.condition);
    lemma_plain_joined(apart, negated(u.effect.condition));
    disjunction_is_exact(w, apart, negated(u.effect.condition));
    negation_is_exact(w, u.effect.condition);
    if !equal_atoms(s, u.link.condition.atom, u.link.to_id, u.effect.literal.atom, u.step_id) {
        if meets_all(s, bs) {
            unifier_unifies(t, p.classes, u.link.condition.atom, u.link.to_id, u.effect.literal.atom, u.step_id, s);
        }
        let k = choose|k: int| 0 <= k < bs.len() && !meets(s, #[trigger] bs[k]);
        assert(bs[k].equality);
        lemma_separates(p, u, s, facts, bs, bs.len(), k);
    }
    assert(w.holds(f));
    let start = Agenda { opens: p.opens, binds: seq![] };
    lemma_goal_taken(t, s, facts, start, f, u.step_id);
    let a = with_goal(t, start, f, u.step_id)->0;
    lemma_hierarchy(cv, p);
    if bound_all(t, p.classes, a.binds) is None {
        refused_bindings_fail(t, p.classes, a.binds, s);
    }
    let q0 = PlanView { unsafes: removed(p.unsafes, u), fresh: r.fresh, ..p };
    assert(q0.typing(cv) == t);
    let q = separated_plan(cv, p, u)->0;
    bindings_are_exact(t, p.classes, a.binds, q.classes, s);
    assert(q.typing(cv) == t);
    lemma_same_allowed(p, q, pos);
    assert forall|id: usize, g: Set<(Predicate, Seq<Object>)>|
        is_served(p, s, g, id) && (id == u.step_id ==> g == facts) implies #[trigger] is_served(q, s, g, id) by {
        assert forall|i: int| 0 <= i < q.opens.len() && (#[trigger] q.opens[i]).step_id == id implies world_at(s, g, id).holds(
            q.opens[i].condition,
        ) by {
            if p.opens.contains(q.opens[i]) {
                let k = choose|k: int| 0 <= k < p.opens.len() && p.opens[k] == q.opens[i];
                assert(world_at(s, g, id).holds(p.opens[k].condition));
            }
        }
    }
}

/// Resolving a threat leaves every way open in which the threat does no harm: where its step
/// happens before the producer or behind the consumer, or where its effect says something
/// else or does not take place, some child allows the same objects, the same times and the
/// same facts.
pub proof fn resolving_a_threat_leaves_all_ways_open(
    cv: ContextView,
    p: PlanView,
    u: UnsafeView,
    s: spec_fn(Variable, usize) -> Object,
    pos: spec_fn(usize) -> int,
    facts: Set<(Predicate, Seq<Object>)>,
) -> (q: PlanView)
    requires
        is_simple_task(cv),
        cv.fresh_base <= u32::MAX,
        is_causal(cv, p),
        p.num_steps <= usize::MAX / 4,
        p.unsafes.contains(u),
        has_id(p, u.step_id),
        has_id(p, u.link.from_id),
        has_id(p, u.link.to_id),
        is_possible(cv, p, s),
        is_allowed(p, pos),
        pos(u.step_id) < pos(u.link.from_id) || pos(u.link.to_id) < pos(u.step_id) || !equal_atoms(
            s,
            u.link.condition.atom,
            u.link.to_id,
            u.effect.literal.atom,
            u.step_id,
        ) || !world_at(s, facts, u.step_id).holds(u.effect.condition),
    ensures
        unsafe_plans(cv, p, u).contains(q),
        is_possible(cv, q, s),
        is_allowed(q, pos),
        stays_served(p, q, s, facts, u.step_id),
{
    let at = choose|i: int| 0 <= i < p.unsafes.len() && p.unsafes[i] == u;
    assert(p.unsafes[at].effect.parameters.len() == 0 && is_plain(p.unsafes[at].effect.condition));
    assert forall|id: usize| #[trigger] has_id(p, id) implies orderable(id as int) by {
        let i = choose|i: int| 0 <= i < p.steps.len() && (#[trigger] p.steps[i]).id == id;
        assert(p.steps[i].id <= p.num_steps || p.steps[i].id == GOAL_ID);
    }
    if !is_threat(cv, p, u) {
        let q = PlanView { unsafes: removed(p.unsafes, u), ..p };
        assert(unsafe_plans(cv, p, u)[0] == q);
        lemma_same_allowed(p, q, pos);
        q
    } else {
        let one = appended(seq![], separated_plan(cv, p, u));
        let later = ordered_plan(p, u, u.link.to_id, u.step_id);
        let sooner = ordered_plan(p, u, u.step_id, u.link.from_id);
        if pos(u.link.to_id) < pos(u.step_id) {
            assert(later is Some);
            let q = later->0;
            lemma_ordered_allowed(p, q, pos, u.link.to_id, u.step_id);
            lemma_appended_has(one, later, q);
            lemma_appended_has(appended(one, later), sooner, q);
            q
        } else if pos(u.step_id) < pos(u.link.from_id) {
            assert(sooner is Some);
            let q = sooner->0;
            lemma_ordered_allowed(p, q, pos, u.step_id, u.link.from_id);
            lemma_appended_has(appended(one, later), sooner, q);
            q
        } else {
            lemma_separable(cv, p, u, s, pos, facts);
            let q = separated_plan(cv, p, u)->0;
            lemma_appended_has(seq![], separated_plan(cv, p, u), q);
            lemma_appended_has(one, later, q);
            lemma_appended_has(appended(one, later), sooner, q);
            q
        }
    }
}

proof fn lemma_effects_for_has(a: StepActionView, l: LiteralView, n: nat, k: int)
    requires
        0 <= k < n <= a.effects.len(),
        a.effects[k].literal.negative == l.negative,
        a.effects[k].literal.atom.predicate == l.atom.predicate,
    ensures
        effects_for(a, l, n).contains((a, k)),
    decreases n,
{
    let all = effects_for(a, l, n);
    let rest = effects_for(a, l, (n - 1) as nat);
    if k == n - 1 {
        assert(all[rest.len() as int] == (a, k));
    } else {
        lemma_effects_for_has(a, l, (n - 1) as nat, k);
        let i = choose|i: int| 0 <= i < rest.len() && rest[i] == (a, k);
        assert(all[i] == (a, k));
    }
}

proof fn lemma_effects_among_has(actions: Seq<StepActionView>, l: LiteralView, n: nat, j: int, k: int)
    requires
        0 <= j < n <= actions.len(),
        0 <= k < actions[j].effects.len(),
        actions[j].effects[k].literal.negative == l.negative,
        actions[j].effects[k].literal.atom.predicate == l.atom.predicate,
    ensures
        effects_among(actions, l, n).contains((actions[j], k)),
    decreases n,
{
    let a = effects_among(actions, l, (n - 1) as nat);
    let b = effects_for(actions[n - 1], l, actions[n - 1].effects.len());
    let x = (actions[j], k);
    if j == n - 1 {
        lemma_effects_for_has(actions[j], l, actions[j].effects.len(), k);
        let i = choose|i: int| 0 <= i < b.len() && b[i] == x;
        assert((a + b)[a.len() + i] == x);
    } else {
        lemma_effects_among_has(actions, l, (n - 1) as nat, j, k);
        let i = choose|i: int| 0 <= i < a.len() && a[i] == x;
        assert((a + b)[i] == x);
    }
}

/// Every effect of an action of the task that may give a literal is among its achievers.
proof fn lemma_achiever(cv: ContextView, l: LiteralView, a: StepActionView, k: int) -> (m: int)
    requires
        a == cv.init || cv.actions.contains(a),
        0 <= k < a.effects.len(),
        a.effects[k].literal.negative == l.negative,
        a.effects[k].literal.atom.predicate == l.atom.predicate,
    ensures
        0 <= m < cv.achievers(l).len(),
        cv.achievers(l)[m] == (a, k),
{
    let b = effects_for(cv.init, l, cv.init.effects.len());
    let c = effects_among(cv.actions, l, cv.actions.len());
    if a == cv.init {
        lemma_effects_for_has(a, l, a.effects.len(), k);
        let i = choose|i: int| 0 <= i < b.len() && b[i] == (a, k);
        i
    } else {
        let j = choose|j: int| 0 <= j < cv.actions.len() && cv.actions[j] == a;
        lemma_effects_among_has(cv.actions, l, cv.actions.len(), j, k);
        let i = choose|i: int| 0 <= i < c.len() && c[i] == (a, k);
        b.len() + i
    }
}

proof fn lemma_new_has(cv: ContextView, p: PlanView, oc: OpenView, achievers: Seq<(StepActionView, int)>, n: nat, m: int, q: PlanView)
    requires
        0 <= m < n <= achievers.len(),
        !achievers[m].0.is_synthetic(),
        link_child(cv, p, StepView { id: (p.num_steps + 1) as usize, action: achievers[m].0 }, true, achievers[m].1, oc) == Some(q),
    ensures
        new_step_plans(cv, p, oc, achievers, n).contains(q),
    decreases n,
{
    let rest = new_step_plans(cv, p, oc, achievers, (n - 1) as nat);
    let (a, k) = achievers[n - 1];
    let child = link_child(cv, p, StepView { id: (p.num_steps + 1) as usize, action: a }, true, k, oc);
    if m < n - 1 {
        lemma_new_has(cv, p, oc, achievers, (n - 1) as nat, m, q);
    }
    if !a.is_synthetic() {
        lemma_appended_has(rest, child, q);
    }
}

proof fn lemma_reuse_by_has(cv: ContextView, p: PlanView, oc: OpenView, x: StepView, achievers: Seq<(StepActionView, int)>, n: nat, m: int, q: PlanView)
    requires
        0 <= m < n <= achievers.len(),
        achievers[m].0.id == x.action.id,
        achievers[m].1 < x.action.effects.len(),
        may_come_before(p.order, x.id as int, oc.step_id as int),
        link_child(cv, p, x, false, achievers[m].1, oc) == Some(q),
    ensures
        reuse_by_step(cv, p, oc, x, achievers, n).contains(q),
    decreases n,
{
    let rest = reuse_by_step(cv, p, oc, x, achievers, (n - 1) as nat);
    let (a, k) = achievers[n - 1];
    if m < n - 1 {
        lemma_reuse_by_has(cv, p, oc, x, achievers, (n - 1) as nat, m, q);
    }
    if a.id == x.action.id && may_come_before(p.order, x.id as int, oc.step_id as int) && k < x.action.effects.len() {
        lemma_appended_has(rest, link_child(cv, p, x, false, k, oc), q);
    }
}

proof fn lemma_reuse_has(cv: ContextView, p: PlanView, oc: OpenView, achievers: Seq<(StepActionView, int)>, n: nat, j: int, q: PlanView)
    requires
        0 <= j < n <= p.steps.len(),
        reuse_by_step(cv, p, oc, p.steps[j], achievers, achievers.len()).contains(q),
    ensures
        reuse_plans(cv, p, oc, achievers, n).contains(q),
    decreases n,
{
    let a = reuse_plans(cv, p, oc, achievers, (n - 1) as nat);
    let b = reuse_by_step(cv, p, oc, p.steps[n - 1], achievers, achievers.len());
    if j == n - 1 {
        let i = choose|i: int| 0 <= i < b.len() && b[i] == q;
        assert((a + b)[a.len() + i] == q);
    } else {
        lemma_reuse_has(cv, p, oc, achievers, (n - 1) as nat, j, q);
        let i = choose|i: int| 0 <= i < a.len() && a[i] == q;
        assert((a + b)[i] == q);
    }
}

/// The classes of a plan arise from bindings also under the types with a new step.
proof fn lemma_sound_with(cv: ContextView, p: PlanView, x: StepView)
    requires
        is_causal(cv, p),
        p.num_steps + 1 < usize::MAX,
        x.id == p.num_steps + 1,
    ensures
        sound(cv.typing(types_at(cv, seq![x] + p.steps, p.fresh)), p.classes),
{
    let t = cv.typing(types_at(cv, seq![x] + p.steps, p.fresh));
    scoped_plans_are_settled(cv, p);
    assert forall|i: int, y: (Variable, usize)| 0 <= i < p.classes.len() && #[trigger] p.classes[i].members.contains(y) implies p.typing(cv).var_ty(
        y.0,
        y.1,
    ) == t.var_ty(y.0, y.1) by {
        assert((seq![x] + p.steps).drop_first() == p.steps);
    }
    arising_looks_at_own_variables(p.typing(cv), t, p.classes);
}

/// Whether an effect of a step takes place and gives an open literal.
pub open spec fn supplies(
    s: spec_fn(Variable, usize) -> Object,
    facts: Set<(Predicate, Seq<Object>)>,
    x: StepView,
    e: EffectView,
    oc: OpenView,
) -> bool {
    &&& oc.as_literal() is Some
    &&& e.literal.negative == oc.as_literal()->0.negative
    &&& equal_atoms(s, oc.as_literal()->0.atom, oc.step_id, e.literal.atom, x.id)
    &&& world_at(s, facts, x.id).holds(e.condition)
    &&& world_at(s, facts, x.id).holds(e.link_condition)
}

/// The agenda of a link that its producer supplies.
proof fn lemma_link_agenda(
    t: Typing,
    p: PlanView,
    x: StepView,
    is_new: bool,
    e: EffectView,
    oc: OpenView,
    u: Seq<Binding>,
    s: spec_fn(Variable, usize) -> Object,
    facts: Set<(Predicate, Seq<Object>)>,
) -> (a: Agenda)
    requires
        is_simple(x.action),
        e.parameters.len() == 0,
        is_plain(e.condition),
        is_plain(e.link_condition),
        supplies(s, facts, x, e, oc),
        is_new ==> world_at(s, facts, x.id).holds(x.action.precondition),
        meets_all(s, u),
        crate::plan_model::named_all(e, x.id, seq![], u, u.len()) == u,
    ensures
        link_agenda(t, p, x, is_new, e, oc, u, seq![]) == Some(a),
        meets_all(s, a.binds),
        forall|i: int| 0 <= i < a.opens.len() ==> removed(p.opens, oc).contains(#[trigger] a.opens[i]) || (a.opens[i].step_id == x.id && world_at(
            s,
            facts,
            x.id,
        ).holds(a.opens[i].condition)),
{
    let w = world_at(s, facts, x.id);
    let start = Agenda { opens: removed(p.opens, oc), binds: u };
    lemma_plain_joined(e.condition, e.link_condition);
    put_nothing(link_goal(e));
    conjunction_is_exact(w, e.condition, e.link_condition);
    lemma_goal_taken(t, s, facts, start, link_goal(e), x.id);
    let a1 = with_goal(t, start, link_goal(e), x.id)->0;
    if is_new {
        lemma_goal_taken(t, s, facts, a1, x.action.precondition, x.id);
        let a = with_goal(t, a1, x.action.precondition, x.id)->0;
        assert forall|i: int| 0 <= i < a.opens.len() implies start.opens.contains(#[trigger] a.opens[i]) || (a.opens[i].step_id == x.id && w.holds(
            a.opens[i].condition,
        )) by {
            if a1.opens.contains(a.opens[i]) {
                let k = choose|k: int| 0 <= k < a1.opens.len() && a1.opens[k] == a.opens[i];
                assert(start.opens.contains(a1.opens[k]) || a1.opens[k].step_id == x.id);
            }
        }
        a
    } else {
        a1
    }
}

/// Supporting an open literal with an effect of a step that gives it leaves the way open.
proof fn lemma_linkable(
    cv: ContextView,
    p: PlanView,
    oc: OpenView,
    x: StepView,
    is_new: bool,
    k: int,
    s: spec_fn(Variable, usize) -> Object,
    pos: spec_fn(usize) -> int,
    facts: Set<(Predicate, Seq<Object>)>,
    steps: Seq<StepView>,
)
    requires
        is_simple_task(cv),
        cv.fresh_base <= u32::MAX,
        p.fresh.len() == 0,
        is_simple(x.action),
        0 <= k < x.action.effects.len(),
        steps == (if is_new {
            seq![x] + p.steps
        } else {
            p.steps
        }),
        p.opens.contains(oc),
        supplies(s, facts, x, x.action.effects[k], oc),
        is_new ==> world_at(s, facts, x.id).holds(x.action.precondition),
        sound(cv.typing(types_at(cv, steps, p.fresh)), p.classes),
        admits(p.classes, s),
        well_typed(cv.typing(types_at(cv, steps, p.fresh)), s),
        is_allowed(PlanView { steps, ..p }, pos),
        has_id(PlanView { steps, ..p }, x.id),
        has_id(PlanView { steps, ..p }, oc.step_id),
        orderable(x.id as int),
        orderable(oc.step_id as int),
        pos(x.id) < pos(oc.step_id),
    ensures
        link_child(cv, p, x, is_new, k, oc) matches Some(q) && is_possible(cv, q, s) && is_allowed(q, pos) && stays_served(p, q, s, facts, x.id)
            && q.links.len() == p.links.len() + 1 && q.links[0].from_id == x.id && q.links[0].to_id == oc.step_id && q.links[0].condition
            == oc.as_literal()->0,
{
    let e = x.action.effects[k];
    let l = oc.as_literal()->0;
    let t = cv.typing(types_at(cv, steps, p.fresh));
    let u = unifier(t, p.classes, e.literal.atom, x.id, l.atom, oc.step_id);
    let whole = PlanView { steps, ..p };
    lemma_hierarchy(cv, whole);
    assert(whole.typing(cv) == t);
    lemma_swapped(s, l.atom, oc.step_id, e.literal.atom, x.id);
    unifier_is_most_general(t, p.classes, e.literal.atom, x.id, l.atom, oc.step_id, s);
    lemma_link_names(cv, p, steps, x, e, u);
    let a = lemma_link_agenda(t, p, x, is_new, e, oc, u, s, facts);
    if bound_all(t, p.classes, a.binds) is None {
        refused_bindings_fail(t, p.classes, a.binds, s);
    }
    let sets = bound_all(t, p.classes, a.binds)->0;
    bindings_are_exact(t, p.classes, a.binds, sets, s);
    if comes_before(p.order, oc.step_id as int, x.id as int) {
        assert(comes_before(whole.order, oc.step_id as int, x.id as int));
    }
    assert(link_order(p.order, x.id, oc.step_id) is Some);
    let q = linked(cv, p, x, is_new, e, oc, u)->0;
    assert(q.typing(cv) == t);
    if x.id == INIT_ID {
        lemma_same_allowed(whole, q, pos);
    } else {
        lemma_ordered_allowed(whole, q, pos, x.id, oc.step_id);
    }
    assert(stays_served(p, q, s, facts, x.id)) by {
        assert forall|id: usize, g: Set<(Predicate, Seq<Object>)>|
            is_served(p, s, g, id) && (id == x.id ==> g == facts) implies #[trigger] is_served(q, s, g, id) by {
            assert forall|i: int| 0 <= i < q.opens.len() && (#[trigger] q.opens[i]).step_id == id implies world_at(s, g, id).holds(
                q.opens[i].condition,
            ) by {
                assert(q.opens[i] == a.opens[i]);
                if removed(p.opens, oc).contains(a.opens[i]) {
                    let j = choose|j: int| 0 <= j < removed(p.opens, oc).len() && removed(p.opens, oc)[j] == a.opens[i];
                    let m = lemma_removed_from(p.opens, oc, j);
                    assert(world_at(s, g, id).holds(p.opens[m].condition));
                }
            }
            assert forall|i: int| 0 <= i < q.links.len() && (#[trigger] q.links[i]).to_id == id implies is_so(s, g, q.links[i].condition, id) by {
                if i == 0 {
                    let m = choose|m: int| 0 <= m < p.opens.len() && p.opens[m] == oc;
                    assert(world_at(s, g, id).holds(p.opens[m].condition));
                } else {
                    assert(q.links[i] == p.links[i - 1]);
                    assert(is_so(s, g, p.links[i - 1].condition, id));
                }
            }
        }
    }
}

/// Resolving an open literal leaves every way open in which a step before gives it: for each
/// step of the plan, and for each action of the task as a new step, with an effect that
/// takes place and says the literal, some child links the two and allows the same objects,
/// the same times and the same facts.
pub proof fn resolving_a_literal_leaves_all_ways_open(
    cv: ContextView,
    p: PlanView,
    oc: OpenView,
    x: StepView,
    is_new: bool,
    k: int,
    s: spec_fn(Variable, usize) -> Object,
    pos: spec_fn(usize) -> int,
    facts: Set<(Predicate, Seq<Object>)>,
    steps: Seq<StepView>,
) -> (q: PlanView)
    requires
        is_simple_task(cv),
        cv.fresh_base <= u32::MAX,
        is_causal(cv, p),
        p.num_steps + 1 <= usize::MAX / 4,
        p.opens.contains(oc),
        has_id(p, oc.step_id),
        if is_new {
            x.id == p.num_steps + 1 && cv.actions.contains(x.action) && !x.action.is_synthetic() && steps == seq![x] + p.steps
        } else {
            p.steps.contains(x) && steps == p.steps
        },
        0 <= k < x.action.effects.len(),
        supplies(s, facts, x, x.action.effects[k], oc),
        is_new ==> world_at(s, facts, x.id).holds(x.action.precondition),
        admits(p.classes, s),
        well_typed(cv.typing(types_at(cv, steps, p.fresh)), s),
        is_allowed(PlanView { steps, ..p }, pos),
        pos(x.id) < pos(oc.step_id),
    ensures
        open_plans(cv, p, oc).contains(q),
        q.links.len() == p.links.len() + 1,
        q.links[0].from_id == x.id,
        q.links[0].to_id == oc.step_id,
        q.links[0].condition == oc.as_literal()->0,
        is_possible(cv, q, s),
        is_allowed(q, pos),
        stays_served(p, q, s, facts, x.id),
{
    let l = oc.as_literal()->0;
    let e = x.action.effects[k];
    let whole = PlanView { steps, ..p };
    let achievers = cv.achievers(l);
    assert forall|id: usize| #[trigger] has_id(p, id) implies orderable(id as int) && has_id(whole, id) by {
        let i = choose|i: int| 0 <= i < p.steps.len() && (#[trigger] p.steps[i]).id == id;
        assert(p.steps[i].id <= p.num_steps || p.steps[i].id == GOAL_ID);
        if is_new {
            assert(whole.steps[i + 1].id == id);
        } else {
            assert(whole.steps[i].id == id);
        }
    }
    if is_new {
        assert(whole.steps[0].id == x.id);
        let i = choose|i: int| 0 <= i < cv.actions.len() && cv.actions[i] == x.action;
        assert(is_simple(cv.actions[i]));
        lemma_sound_with(cv, p, x);
    } else {
        let j = choose|j: int| 0 <= j < p.steps.len() && p.steps[j] == x;
        assert(is_simple(p.steps[j].action));
        assert(has_id(p, x.id));
        assert(whole.typing(cv) == p.typing(cv));
    }
    lemma_linkable(cv, p, oc, x, is_new, k, s, pos, facts, steps);
    let q = link_child(cv, p, x, is_new, k, oc)->0;
    let a = new_step_plans(cv, p, oc, achievers, achievers.len());
    let b = reuse_plans(cv, p, oc, achievers, p.steps.len());
    if is_new {
        let m = lemma_achiever(cv, l, x.action, k);
        lemma_new_has(cv, p, oc, achievers, achievers.len(), m, q);
        let i = choose|i: int| 0 <= i < a.len() && a[i] == q;
        assert((a + b)[i] == q);
    } else {
        let j = choose|j: int| 0 <= j < p.steps.len() && p.steps[j] == x;
        assert(is_of_task(cv, p.steps[j].action));
        let m = lemma_achiever(cv, l, x.action, k);
        assert(may_come_before(p.order, x.id as int, oc.step_id as int)) by {
            if comes_before(p.order, oc.step_id as int, x.id as int) {
                assert(comes_before(whole.order, oc.step_id as int, x.id as int));
            }
        }
        lemma_reuse_by_has(cv, p, oc, x, achievers, achievers.len(), m, q);
        lemma_reuse_has(cv, p, oc, achievers, p.steps.len(), j, q);
        let i = choose|i: int| 0 <= i < b.len() && b[i] == q;
        assert((a + b)[a.len() + i] == q);
    }
    assert((a + b).contains(q));
    if l.negative {
        lemma_appended_has(a + b, crate::plan_model::absence_plan(cv, p, oc), q);
    }
    q
}

proof fn lemma_parted(s: spec_fn(Variable, usize) -> Object, facts: Set<(Predicate, Seq<Object>)>, id: usize, u: Seq<Binding>, n: nat, k: int)
    requires
        0 <= k < n <= u.len(),
        s(u[k].var, u[k].var_id) != value(s, u[k].term, u[k].term_id),
    ensures
        world_at(s, facts, id).holds(some_parted(u, n)),
    decreases n,
{
    let w = world_at(s, facts, id);
    let rest = some_parted(u, (n - 1) as nat);
    disjunction_is_exact(w, rest, parting(u[n - 1]));
    if k < n - 1 {
        lemma_parted(s, facts, id, u, (n - 1) as nat, k);
    } else {
        assert(w.holds(parting(u[k])));
    }
}

/// Where an atom is none of the initial facts, what keeps it from them holds.
proof fn lemma_absent(
    cv: ContextView,
    p: PlanView,
    s: spec_fn(Variable, usize) -> Object,
    facts: Set<(Predicate, Seq<Object>)>,
    es: Seq<EffectView>,
    atom: AtomView,
    id: usize,
    n: nat,
)
    requires
        is_possible(cv, p, s),
        n <= es.len(),
        forall|k: int| 0 <= k < n ==> !equal_atoms(s, atom, id, (#[trigger] es[k]).literal.atom, INIT_ID),
    ensures
        absence(p.typing(cv), p.classes, es, atom, id, n) is Some,
        world_at(s, facts, INIT_ID).holds(absence(p.typing(cv), p.classes, es, atom, id, n)->0),
    decreases n,
{
    if n > 0 {
        let t = p.typing(cv);
        let w = world_at(s, facts, INIT_ID);
        lemma_absent(cv, p, s, facts, es, atom, id, (n - 1) as nat);
        let f = absence(t, p.classes, es, atom, id, (n - 1) as nat)->0;
        let l = es[n - 1].literal;
        let goal = LiteralView { negative: false, atom };
        if literals_unify(t, p.classes, seq![], l, INIT_ID, goal, id) {
            let u = unifier(t, p.classes, l.atom, INIT_ID, atom, id);
            unifiers_are_equalities(t, p.classes, l.atom, INIT_ID, atom, id);
            if meets_all(s, u) {
                unifier_unifies(t, p.classes, l.atom, INIT_ID, atom, id, s);
                lemma_swapped(s, l.atom, INIT_ID, atom, id);
                assert(!equal_atoms(s, atom, id, es[n - 1].literal.atom, INIT_ID));
            }
            let k = choose|k: int| 0 <= k < u.len() && !meets(s, #[trigger] u[k]);
            assert(u[k].equality);
            lemma_parted(s, facts, INIT_ID, u, u.len(), k);
            conjunction_is_exact(w, f, some_parted(u, u.len()));
        }
    }
}

/// A goal that holds at its step can be taken on in place of an open condition that it
/// implies.
proof fn lemma_goal_taken_on(
    cv: ContextView,
    p: PlanView,
    opens: Seq<OpenView>,
    f: FormulaView,
    id: usize,
    s: spec_fn(Variable, usize) -> Object,
    facts: Set<(Predicate, Seq<Object>)>,
) -> (a: Agenda)
    requires
        is_simple_task(cv),
        is_plain(f),
        sound(p.typing(cv), p.classes),
        is_possible(cv, p, s),
        world_at(s, facts, id).holds(f),
    ensures
        with_goal(p.typing(cv), Agenda { opens, binds: seq![] }, f, id) == Some(a),
        bound_all(p.typing(cv), p.classes, a.binds) matches Some(sets) && admits(sets, s),
        forall|i: int| 0 <= i < a.opens.len() ==> opens.contains(#[trigger] a.opens[i]) || (a.opens[i].step_id == id && world_at(s, facts, id).holds(
            a.opens[i].condition,
        )),
{
    let t = p.typing(cv);
    let start = Agenda { opens, binds: seq![] };
    lemma_goal_taken(t, s, facts, start, f, id);
    let a = with_goal(t, start, f, id)->0;
    lemma_hierarchy(cv, p);
    if bound_all(t, p.classes, a.binds) is None {
        refused_bindings_fail(t, p.classes, a.binds, s);
    }
    bindings_are_exact(t, p.classes, a.binds, bound_all(t, p.classes, a.binds)->0, s);
    a
}

proof fn lemma_opens_served(
    p: PlanView,
    q: PlanView,
    oc: OpenView,
    step: usize,
    s: spec_fn(Variable, usize) -> Object,
    facts: Set<(Predicate, Seq<Object>)>,
)
    requires
        forall|i: int| 0 <= i < q.opens.len() ==> removed(p.opens, oc).contains(#[trigger] q.opens[i]) || (q.opens[i].step_id == step && world_at(
            s,
            facts,
            step,
        ).holds(q.opens[i].condition)),
    ensures
        forall|id: usize, g: Set<(Predicate, Seq<Object>)>, i: int|
            #[trigger] is_served(p, s, g, id) && (id == step ==> g == facts) && 0 <= i < q.opens.len() && (#[trigger] q.opens[i]).step_id == id ==> world_at(
                s,
                g,
                id,
            ).holds(q.opens[i].condition),
{
    assert forall|id: usize, g: Set<(Predicate, Seq<Object>)>, i: int|
        #[trigger] is_served(p, s, g, id) && (id == step ==> g == facts) && 0 <= i < q.opens.len() && (#[trigger] q.opens[i]).step_id == id implies world_at(
        s,
        g,
        id,
    ).holds(q.opens[i].condition) by {
        if removed(p.opens, oc).contains(q.opens[i]) {
            let j = choose|j: int| 0 <= j < removed(p.opens, oc).len() && removed(p.opens, oc)[j] == q.opens[i];
            let m = lemma_removed_from(p.opens, oc, j);
            assert(world_at(s, g, id).holds(p.opens[m].condition));
        }
    }
}

/// Resolving a negative open literal leaves every way open in which its atom is none of the
/// initial facts: some child links it to the initial state.
pub proof fn resolving_by_absence_leaves_all_ways_open(
    cv: ContextView,
    p: PlanView,
    oc: OpenView,
    s: spec_fn(Variable, usize) -> Object,
    pos: spec_fn(usize) -> int,
    facts: Set<(Predicate, Seq<Object>)>,
) -> (q: PlanView)
    requires
        is_simple_task(cv),
        is_causal(cv, p),
        p.opens.contains(oc),
        oc.as_literal() matches Some(l) && l.negative,
        is_possible(cv, p, s),
        is_allowed(p, pos),
        forall|k: int|
            0 <= k < cv.init.effects.len() ==> !equal_atoms(
                s,
                oc.as_literal()->0.atom,
                oc.step_id,
                (#[trigger] cv.init.effects[k]).literal.atom,
                INIT_ID,
            ),
    ensures
        open_plans(cv, p, oc).contains(q),
        q.links.len() == p.links.len() + 1,
        q.links[0].from_id == INIT_ID,
        q.links[0].to_id == oc.step_id,
        q.links[0].condition == oc.as_literal()->0,
        is_possible(cv, q, s),
        is_allowed(q, pos),
        stays_served(p, q, s, facts, INIT_ID),
{
    let l = oc.as_literal()->0;
    let es = cv.init.effects;
    let t = p.typing(cv);
    lemma_absent(cv, p, s, facts, es, l.atom, oc.step_id, es.len());
    lemma_absence(cv, p, s, facts, es, l.atom, oc.step_id, es.len());
    let f = absence(t, p.classes, es, l.atom, oc.step_id, es.len())->0;
    let a = lemma_goal_taken_on(cv, p, removed(p.opens, oc), f, INIT_ID, s, facts);
    let q = absence_plan(cv, p, oc)->0;
    assert(q.typing(cv) == t);
    lemma_same_allowed(p, q, pos);
    lemma_opens_served(p, q, oc, INIT_ID, s, facts);
    assert(stays_served(p, q, s, facts, INIT_ID)) by {
        assert forall|id: usize, g: Set<(Predicate, Seq<Object>)>|
            is_served(p, s, g, id) && (id == INIT_ID ==> g == facts) implies #[trigger] is_served(q, s, g, id) by {
            assert forall|i: int| 0 <= i < q.links.len() && (#[trigger] q.links[i]).to_id == id implies is_so(s, g, q.links[i].condition, id) by {
                if i == 0 {
                    let m = choose|m: int| 0 <= m < p.opens.len() && p.opens[m] == oc;
                    assert(world_at(s, g, id).holds(p.opens[m].condition));
                } else {
                    assert(q.links[i] == p.links[i - 1]);
                    assert(is_so(s, g, p.links[i - 1].condition, id));
                }
            }
        }
    }
    let achievers = cv.achievers(l);
    let before = new_step_plans(cv, p, oc, achievers, achievers.len()) + reuse_plans(cv, p, oc, achievers, p.steps.len());
    lemma_appended_has(before, absence_plan(cv, p, oc), q);
    q
}

proof fn lemma_disjunct_has(cv: ContextView, p: PlanView, oc: OpenView, ds: Seq<FormulaView>, n: nat, k: int, q: PlanView)
    requires
        0 <= k < n <= ds.len(),
        goal_plan(cv, p, removed(p.opens, oc), ds[k], oc.step_id) == Some(q),
    ensures
        disjunct_plans(cv, p, oc, ds, n).contains(q),
    decreases n,
{
    if k < n - 1 {
        lemma_disjunct_has(cv, p, oc, ds, (n - 1) as nat, k, q);
    }
    lemma_appended_has(
        disjunct_plans(cv, p, oc, ds, (n - 1) as nat),
        goal_plan(cv, p, removed(p.opens, oc), ds[n - 1], oc.step_id),
        q,
    );
}

/// Resolving an open disjunction leaves every way open in which one of its disjuncts holds.
pub proof fn resolving_a_disjunction_leaves_all_ways_open(
    cv: ContextView,
    p: PlanView,
    oc: OpenView,
    ds: Seq<FormulaView>,
    s: spec_fn(Variable, usize) -> Object,
    pos: spec_fn(usize) -> int,
    facts: Set<(Predicate, Seq<Object>)>,
) -> (q: PlanView)
    requires
        is_simple_task(cv),
        is_causal(cv, p),
        p.opens.contains(oc),
        oc.condition == FormulaView::Disjunction(ds),
        is_possible(cv, p, s),
        is_allowed(p, pos),
        world_at(s, facts, oc.step_id).holds(oc.condition),
    ensures
        open_plans(cv, p, oc).contains(q),
        is_possible(cv, q, s),
        is_allowed(q, pos),
        stays_served(p, q, s, facts, oc.step_id),
{
    let w = world_at(s, facts, oc.step_id);
    let at = choose|i: int| 0 <= i < p.opens.len() && p.opens[i] == oc;
    assert(is_fair(p.opens[at]));
    let k = choose|k: int| 0 <= k < ds.len() && w.holds(#[trigger] ds[k]);
    assert(is_plain(ds[k]));
    let a = lemma_goal_taken_on(cv, p, removed(p.opens, oc), ds[k], oc.step_id, s, facts);
    let q = goal_plan(cv, p, removed(p.opens, oc), ds[k], oc.step_id)->0;
    assert(q.typing(cv) == p.typing(cv));
    lemma_same_allowed(p, q, pos);
    lemma_opens_served(p, q, oc, oc.step_id, s, facts);
    assert(stays_served(p, q, s, facts, oc.step_id)) by {
        assert forall|id: usize, g: Set<(Predicate, Seq<Object>)>|
            is_served(p, s, g, id) && (id == oc.step_id ==> g == facts) implies #[trigger] is_served(q, s, g, id) by {
            assert forall|i: int| 0 <= i < q.links.len() && (#[trigger] q.links[i]).to_id == id implies is_so(s, g, q.links[i].condition, id) by {
                assert(is_so(s, g, p.links[i].condition, id));
            }
        }
    }
    lemma_disjunct_has(cv, p, oc, ds, ds.len(), k, q);
    q
}

} // verus!
