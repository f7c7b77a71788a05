//! Causal links: what a plan's links and threats say of every way to execute it.
use vstd::prelude::*;

use crate::agenda::{binding_of, id_or, with_equation, with_goal, with_goals, Agenda};
use crate::bindings_coherence::{all_equalities, unifiers_are_equalities};
use crate::bindings::{bound_all, literals_clash, literals_unify, unifier, Binding, Class};
use crate::bindings_laws::{
    admits, bindings_are_exact, equal_atoms, is_hierarchy, meets, meets_all, sound, unifier_is_most_general, unifier_unifies, value, well_typed,
};
use crate::effect::EffectView;
use crate::flaws::{removed, FlawView, LinkView, OpenView, UnsafeView};
use crate::formula::{all_negated, all_of, any_of, both, conjuncts, disjuncts, either, negated, put_nothing, AtomView, FormulaView, LiteralView};
use crate::formula_laws::{conjunction_is_exact, disjunction_is_exact, negation_is_exact, World};
use crate::orderings::{comes_before, may_come_before, ordered_pair};
use crate::pattern_laws::is_transitive;
use crate::plan::{flaw_plans, GOAL_ID, INIT_ID};
use crate::plan_bindings_laws::{adds_bindings, arising_looks_at_own_variables, refinement_adds_bindings};
use crate::plan_model::{
    absence, absence_plan, appended, disjunct_plans, effect_threats, first_plan, goal_plan, is_threat, link_agenda, link_child, link_goal,
    link_names, link_order, linked, named_all, names_for, new_step_plans, ordered_plan, parting, reuse_by_step, reuse_plans, separated_plan,
    separation, separation_names, some_parted, some_separated, threat_unifier, threatens, threats_by, threats_to, types_at, PlanView, Renaming,
};
use crate::plan_scope_laws::{bindings_of_plans_arise, is_bound_well, is_closed, scoped_plans_are_settled};
use crate::predicates::Predicate;
use crate::refine_laws::{ends_with, keeps_all_but, refinement_keeps_all_but_the_flaw};
use crate::search::{effects_among, effects_for, ContextView};
use crate::select::is_flaw_of;
use crate::step::{action_of, StepActionView, StepView};
use crate::terms::{Object, Term, Variable};
use crate::typing::Typing;

verus! {

/// The world at a step: its facts, where the variables of each step stand for what
/// `s` says and those of no step for what the step's own do.
pub open spec fn world_at(s: spec_fn(Variable, usize) -> Object, facts: Set<(Predicate, Seq<Object>)>, id: usize) -> World {
    World { facts, values: |v: Variable, i: Option<usize>| s(v, id_or(i, id)), ranges: |v: Variable| Set::empty() }
}

/// A formula without quantifiers.
pub open spec fn is_plain(f: FormulaView) -> bool
    decreases f,
{
    match f {
        FormulaView::Conjunction(cs) => forall|i: int| 0 <= i < cs.len() ==> is_plain(#[trigger] cs[i]),
        FormulaView::Disjunction(ds) => forall|i: int| 0 <= i < ds.len() ==> is_plain(#[trigger] ds[i]),
        FormulaView::Exists(_, _) | FormulaView::Forall(_, _) => false,
        _ => true,
    }
}

/// Whether a literal of one step holds among facts.
pub open spec fn is_so(s: spec_fn(Variable, usize) -> Object, facts: Set<(Predicate, Seq<Object>)>, l: LiteralView, id: usize) -> bool {
    l.negative != facts.contains(world_at(s, facts, id).fact(l.atom))
}

/// Whether the open conditions of a step and the conditions of the links to it hold
/// before it.
pub open spec fn is_served(p: PlanView, s: spec_fn(Variable, usize) -> Object, facts: Set<(Predicate, Seq<Object>)>, id: usize) -> bool {
    &&& forall|i: int| 0 <= i < p.opens.len() && (#[trigger] p.opens[i]).step_id == id ==> world_at(s, facts, id).holds(p.opens[i].condition)
    &&& forall|i: int| 0 <= i < p.links.len() && (#[trigger] p.links[i]).to_id == id ==> is_so(s, facts, p.links[i].condition, id)
}

/// Whether the open conditions of an agenda at a step hold.
spec fn opens_hold(opens: Seq<OpenView>, w: World, id: usize) -> bool {
    forall|i: int| 0 <= i < opens.len() && (#[trigger] opens[i]).step_id == id ==> w.holds(opens[i].condition)
}

/// Whether an agenda has what another has and more in front.
spec fn agenda_grows(a: Agenda, b: Agenda) -> bool {
    ends_with(b.opens, a.opens) && a.binds.len() <= b.binds.len() && b.binds.take(a.binds.len() as int) == a.binds
}

proof fn lemma_agenda_on(a: Agenda, b: Agenda, c: Agenda)
    requires
        agenda_grows(a, b),
        agenda_grows(b, c),
    ensures
        agenda_grows(a, c),
{
    assert(c.opens.skip(c.opens.len() - a.opens.len()) == b.opens.skip(b.opens.len() - a.opens.len())) by {
        assert(c.opens.skip(c.opens.len() - b.opens.len()) == b.opens);
        assert(c.opens.skip(c.opens.len() - a.opens.len()) == c.opens.skip(c.opens.len() - b.opens.len()).skip(b.opens.len() - a.opens.len()));
    }
    assert(c.binds.take(a.binds.len() as int) == c.binds.take(b.binds.len() as int).take(a.binds.len() as int));
}

proof fn lemma_opens_back(a: Seq<OpenView>, b: Seq<OpenView>, w: World, id: usize)
    requires
        ends_with(b, a),
        opens_hold(b, w, id),
    ensures
        opens_hold(a, w, id),
{
    let k = b.len() - a.len();
    assert forall|i: int| 0 <= i < a.len() && (#[trigger] a[i]).step_id == id implies w.holds(a[i].condition) by {
        assert(b.skip(k)[i] == b[k + i]);
        assert(b[k + i] == a[i]);
    }
}

proof fn lemma_meets_front(s: spec_fn(Variable, usize) -> Object, a: Seq<Binding>, b: Seq<Binding>)
    requires
        a.len() <= b.len(),
        b.take(a.len() as int) == a,
        meets_all(s, b),
    ensures
        meets_all(s, a),
{
    assert forall|i: int| 0 <= i < a.len() implies meets(s, #[trigger] a[i]) by {
        assert(a[i] == b.take(a.len() as int)[i]);
        assert(meets(s, b[i]));
    }
}

proof fn lemma_equation(
    s: spec_fn(Variable, usize) -> Object,
    facts: Set<(Predicate, Seq<Object>)>,
    a: Agenda,
    l: Term,
    li: Option<usize>,
    r: Term,
    ri: Option<usize>,
    id: usize,
    equality: bool,
)
    requires
        with_equation(a, l, li, r, ri, id, equality) is Some,
        meets_all(s, with_equation(a, l, li, r, ri, id, equality)->0.binds),
    ensures
        (world_at(s, facts, id).value(l, li) == world_at(s, facts, id).value(r, ri)) == equality,
        agenda_grows(a, with_equation(a, l, li, r, ri, id, equality)->0),
{
    let b = with_equation(a, l, li, r, ri, id, equality)->0;
    assert(b.opens.skip(0) == b.opens);
    if !(l is Object && r is Object) {
        let x = binding_of(l, id_or(li, id), r, id_or(ri, id), equality);
        assert(b.binds[a.binds.len() as int] == x);
        assert(meets(s, x));
        assert(b.binds.take(a.binds.len() as int) == a.binds);
    } else {
        assert(b.binds.take(a.binds.len() as int) == a.binds);
    }
}

/// A goal without quantifiers holds at its step where what it adds does.
proof fn lemma_goal_served(t: Typing, s: spec_fn(Variable, usize) -> Object, facts: Set<(Predicate, Seq<Object>)>, a: Agenda, f: FormulaView, id: usize, b: Agenda)
    requires
        is_plain(f),
        with_goal(t, a, f, id) == Some(b),
    ensures
        agenda_grows(a, b),
        meets_all(s, b.binds) && opens_hold(b.opens, world_at(s, facts, id), id) ==> world_at(s, facts, id).holds(f),
        fact_free(f) ==> forall|i: int| 0 <= i < b.opens.len() - a.opens.len() ==> fact_free((#[trigger] b.opens[i]).condition),
        forall|i: int|
            0 <= i < b.opens.len() - a.opens.len() ==> (#[trigger] b.opens[i]).step_id == id && is_plain(b.opens[i].condition) && is_open(
                b.opens[i].condition,
            ),
    decreases f, 0nat,
{
    let w = world_at(s, facts, id);
    assert(a.opens.skip(0) == a.opens);
    assert(a.binds.take(a.binds.len() as int) == a.binds);
    match f {
        FormulaView::Atom(_) | FormulaView::Negation(_) | FormulaView::Disjunction(_) => {
            assert(b.opens.skip(1) == a.opens);
            assert(b.opens[0].condition == f);
        },
        FormulaView::Equality(l, li, r, ri) => {
            if meets_all(s, b.binds) {
                lemma_equation(s, facts, a, l, li, r, ri, id, true);
            }
            lemma_equation_grows(a, l, li, r, ri, id, true);
        },
        FormulaView::Inequality(l, li, r, ri) => {
            if meets_all(s, b.binds) {
                lemma_equation(s, facts, a, l, li, r, ri, id, false);
            }
            lemma_equation_grows(a, l, li, r, ri, id, false);
        },
        FormulaView::Conjunction(cs) => {
            lemma_goals_served(t, s, facts, a, cs, cs.len(), id, b);
        },
        _ => {},
    }
}

/// A formula that says nothing of facts.
pub open spec fn fact_free(f: FormulaView) -> bool
    decreases f,
{
    match f {
        FormulaView::Atom(_) | FormulaView::Negation(_) => false,
        FormulaView::Conjunction(cs) => forall|i: int| 0 <= i < cs.len() ==> fact_free(#[trigger] cs[i]),
        FormulaView::Disjunction(ds) => forall|i: int| 0 <= i < ds.len() ==> fact_free(#[trigger] ds[i]),
        FormulaView::Exists(_, body) => fact_free(*body),
        FormulaView::Forall(_, body) => fact_free(*body),
        _ => true,
    }
}

/// A formula that stays open: a literal or a disjunction.
pub open spec fn is_open(f: FormulaView) -> bool {
    f is Atom || f is Negation || f is Disjunction
}

proof fn lemma_equation_grows(a: Agenda, l: Term, li: Option<usize>, r: Term, ri: Option<usize>, id: usize, equality: bool)
    requires
        with_equation(a, l, li, r, ri, id, equality) is Some,
    ensures
        agenda_grows(a, with_equation(a, l, li, r, ri, id, equality)->0),
        with_equation(a, l, li, r, ri, id, equality)->0.opens == a.opens,
{
    let b = with_equation(a, l, li, r, ri, id, equality)->0;
    assert(b.opens.skip(0) == b.opens);
    assert(b.binds.take(a.binds.len() as int) == a.binds);
}

proof fn lemma_goals_served(
    t: Typing,
    s: spec_fn(Variable, usize) -> Object,
    facts: Set<(Predicate, Seq<Object>)>,
    a: Agenda,
    fs: Seq<FormulaView>,
    n: nat,
    id: usize,
    b: Agenda,
)
    requires
        n <= fs.len(),
        forall|i: int| 0 <= i < fs.len() ==> is_plain(#[trigger] fs[i]),
        with_goals(t, a, fs, n, id) == Some(b),
    ensures
        agenda_grows(a, b),
        meets_all(s, b.binds) && opens_hold(b.opens, world_at(s, facts, id), id) ==> forall|i: int|
            0 <= i < n ==> world_at(s, facts, id).holds(#[trigger] fs[i]),
        (forall|i: int| 0 <= i < fs.len() ==> fact_free(#[trigger] fs[i])) ==> forall|i: int|
            0 <= i < b.opens.len() - a.opens.len() ==> fact_free((#[trigger] b.opens[i]).condition),
        forall|i: int|
            0 <= i < b.opens.len() - a.opens.len() ==> (#[trigger] b.opens[i]).step_id == id && is_plain(b.opens[i].condition) && is_open(
                b.opens[i].condition,
            ),
    decreases fs, n,
{
    assert(a.opens.skip(0) == a.opens);
    assert(a.binds.take(a.binds.len() as int) == a.binds);
    if n > 0 {
        let w = world_at(s, facts, id);
        let m = with_goal(t, a, fs[n - 1], id)->0;
        lemma_goal_served(t, s, facts, a, fs[n - 1], id, m);
        lemma_goals_served(t, s, facts, m, fs, (n - 1) as nat, id, b);
        lemma_agenda_on(a, m, b);
        if meets_all(s, b.binds) && opens_hold(b.opens, w, id) {
            lemma_meets_front(s, m.binds, b.binds);
            lemma_opens_back(m.opens, b.opens, w, id);
        }
        let k = b.opens.len() - m.opens.len();
        assert forall|i: int| k <= i < b.opens.len() implies #[trigger] b.opens[i] == m.opens[i - k] by {
            assert(b.opens.skip(k)[i - k] == b.opens[i]);
        }
    }
}

proof fn lemma_plain_conjuncts(f: FormulaView)
    requires
        is_plain(f),
    ensures
        forall|i: int| 0 <= i < conjuncts(f).len() ==> is_plain(#[trigger] conjuncts(f)[i]),
        forall|i: int| 0 <= i < disjuncts(f).len() ==> is_plain(#[trigger] disjuncts(f)[i]),
{
}

pub proof fn lemma_plain_joined(f: FormulaView, g: FormulaView)
    requires
        is_plain(f),
        is_plain(g),
    ensures
        is_plain(both(f, g)),
        is_plain(either(f, g)),
{
    lemma_plain_conjuncts(f);
    lemma_plain_conjuncts(g);
    let cs = conjuncts(f) + conjuncts(g);
    assert forall|i: int| 0 <= i < cs.len() implies is_plain(#[trigger] cs[i]) by {
        if i < conjuncts(f).len() {
            assert(cs[i] == conjuncts(f)[i]);
        } else {
            assert(cs[i] == conjuncts(g)[i - conjuncts(f).len()]);
        }
    }
    let ds = disjuncts(f) + disjuncts(g);
    assert forall|i: int| 0 <= i < ds.len() implies is_plain(#[trigger] ds[i]) by {
        if i < disjuncts(f).len() {
            assert(ds[i] == disjuncts(f)[i]);
        } else {
            assert(ds[i] == disjuncts(g)[i - disjuncts(f).len()]);
        }
    }
}

proof fn lemma_plain_listed(fs: Seq<FormulaView>)
    requires
        forall|i: int| 0 <= i < fs.len() ==> is_plain(#[trigger] fs[i]),
    ensures
        is_plain(all_of(fs)),
        is_plain(any_of(fs)),
    decreases fs.len(),
{
    if fs.len() > 0 {
        let front = fs.drop_last();
        assert forall|i: int| 0 <= i < front.len() implies is_plain(#[trigger] front[i]) by {
            assert(front[i] == fs[i]);
        }
        lemma_plain_listed(front);
        lemma_plain_joined(all_of(front), fs.last());
        lemma_plain_joined(any_of(front), fs.last());
    }
}

pub proof fn lemma_plain_negated(f: FormulaView)
    requires
        is_plain(f),
    ensures
        is_plain(negated(f)),
    decreases f,
{
    match f {
        FormulaView::Conjunction(cs) => {
            assert forall|i: int| 0 <= i < cs.len() implies is_plain(#[trigger] all_negated(cs)[i]) by {
                lemma_plain_negated(cs[i]);
            }
            lemma_plain_listed(all_negated(cs));
        },
        FormulaView::Disjunction(ds) => {
            assert forall|i: int| 0 <= i < ds.len() implies is_plain(#[trigger] all_negated(ds)[i]) by {
                lemma_plain_negated(ds[i]);
            }
            lemma_plain_listed(all_negated(ds));
        },
        _ => {},
    }
}

pub proof fn lemma_fact_free_joined(f: FormulaView, g: FormulaView)
    requires
        fact_free(f),
        fact_free(g),
    ensures
        fact_free(both(f, g)),
        fact_free(either(f, g)),
{
    let cs = conjuncts(f) + conjuncts(g);
    assert forall|i: int| 0 <= i < cs.len() implies fact_free(#[trigger] cs[i]) by {
        if i < conjuncts(f).len() {
            assert(cs[i] == conjuncts(f)[i]);
        } else {
            assert(cs[i] == conjuncts(g)[i - conjuncts(f).len()]);
        }
    }
    let ds = disjuncts(f) + disjuncts(g);
    assert forall|i: int| 0 <= i < ds.len() implies fact_free(#[trigger] ds[i]) by {
        if i < disjuncts(f).len() {
            assert(ds[i] == disjuncts(f)[i]);
        } else {
            assert(ds[i] == disjuncts(g)[i - disjuncts(f).len()]);
        }
    }
}

/// An action without quantifiers.
pub open spec fn is_simple(a: StepActionView) -> bool {
    &&& is_plain(a.precondition)
    &&& forall|k: int|
        0 <= k < a.effects.len() ==> (#[trigger] a.effects[k]).parameters.len() == 0 && is_plain(a.effects[k].condition) && is_plain(
            a.effects[k].link_condition,
        )
}

/// A task without quantifiers: its first step has unconditional additions only, its
/// last no effects, and types with common objects are comparable.
pub open spec fn is_simple_task(cv: ContextView) -> bool {
    let t = cv.typing(types_at(cv, seq![], seq![]));
    &&& is_closed(cv)
    &&& cv.table.len() > 0
    &&& forall|i: int| 0 <= i < cv.objects.len() ==> (#[trigger] cv.objects[i]).0 < cv.table.len()
    &&& is_hierarchy(t)
    &&& is_transitive(t)
    &&& is_simple(cv.init)
    &&& cv.init.precondition is True
    &&& forall|k: int|
        0 <= k < cv.init.effects.len() ==> (#[trigger] cv.init.effects[k]).condition is True && cv.init.effects[k].link_condition is True
            && !cv.init.effects[k].literal.negative
    &&& is_simple(cv.goal)
    &&& cv.goal.effects.len() == 0
    &&& forall|i: int| 0 <= i < cv.actions.len() ==> is_simple(#[trigger] cv.actions[i])
}

/// Whether objects for the variables of the steps are of their types and meet the
/// bindings of a plan.
pub open spec fn is_possible(cv: ContextView, p: PlanView, s: spec_fn(Variable, usize) -> Object) -> bool {
    admits(p.classes, s) && well_typed(p.typing(cv), s)
}

/// Whether the precondition of a step holds wherever what the plan has for it does.
pub open spec fn is_prepared(cv: ContextView, p: PlanView, x: StepView) -> bool {
    forall|s: spec_fn(Variable, usize) -> Object, facts: Set<(Predicate, Seq<Object>)>|
        is_possible(cv, p, s) && #[trigger] is_served(p, s, facts, x.id) ==> world_at(s, facts, x.id).holds(x.action.precondition)
}

/// Whether an effect of a step takes place and gives the condition of a link
/// wherever what the plan has for the step holds.
pub open spec fn gives(cv: ContextView, p: PlanView, l: LinkView, x: StepView, e: EffectView) -> bool {
    &&& x.id == l.from_id
    &&& e.literal.negative == l.condition.negative
    &&& forall|s: spec_fn(Variable, usize) -> Object, facts: Set<(Predicate, Seq<Object>)>|
        is_possible(cv, p, s) && #[trigger] is_served(p, s, facts, x.id) ==> {
            &&& world_at(s, facts, x.id).holds(e.condition)
            &&& world_at(s, facts, x.id).holds(e.link_condition)
            &&& equal_atoms(s, l.condition.atom, l.to_id, e.literal.atom, x.id)
        }
}

/// Whether the atom of a link's condition is none of the initial facts.
pub open spec fn is_absent(cv: ContextView, p: PlanView, l: LinkView) -> bool {
    &&& l.from_id == INIT_ID
    &&& l.condition.negative
    &&& forall|s: spec_fn(Variable, usize) -> Object, facts: Set<(Predicate, Seq<Object>)>, k: int|
        is_possible(cv, p, s) && #[trigger] is_served(p, s, facts, INIT_ID) && 0 <= k < cv.init.effects.len() ==> !equal_atoms(
            s,
            l.condition.atom,
            l.to_id,
            (#[trigger] cv.init.effects[k]).literal.atom,
            INIT_ID,
        )
}

/// Whether the producer of a link gives its condition: an effect of one of the
/// plan's steps, or the absence of the atom from the initial state.
pub open spec fn is_given(cv: ContextView, p: PlanView, l: LinkView) -> bool {
    ||| exists|j: int, k: int|
        0 <= j < p.steps.len() && 0 <= k < p.steps[j].action.effects.len() && gives(cv, p, l, #[trigger] p.steps[j], #[trigger] p.steps[j].action.effects[k])
    ||| is_absent(cv, p, l)
}

/// Whether an effect of a step does not take place wherever it would say the
/// contrary of a link's condition.
pub open spec fn is_harmless(cv: ContextView, p: PlanView, l: LinkView, x: StepView, e: EffectView) -> bool {
    forall|s: spec_fn(Variable, usize) -> Object, facts: Set<(Predicate, Seq<Object>)>|
        is_possible(cv, p, s) && #[trigger] is_served(p, s, facts, x.id) && equal_atoms(s, l.condition.atom, l.to_id, e.literal.atom, x.id)
            ==> !world_at(s, facts, x.id).holds(e.condition)
}

/// Whether an effect of a step that could say the contrary of a link's condition is
/// listed as a threat, or cannot come between the link's steps, or is harmless.
pub open spec fn is_covered(cv: ContextView, p: PlanView, l: LinkView, x: StepView, e: EffectView) -> bool {
    ||| e.literal.negative == l.condition.negative
    ||| e.link_condition is False
    ||| x.id == l.from_id
    ||| x.id == l.to_id
    ||| p.unsafes.contains(UnsafeView { link: l, step_id: x.id, effect: e })
    ||| comes_before(p.order, x.id as int, l.from_id as int)
    ||| comes_before(p.order, l.to_id as int, x.id as int)
    ||| is_harmless(cv, p, l, x, e)
}

/// Whether every effect of a step is covered for a link.
pub open spec fn are_covered(cv: ContextView, p: PlanView, l: LinkView, x: StepView) -> bool {
    forall|k: int| 0 <= k < x.action.effects.len() ==> is_covered(cv, p, l, x, #[trigger] x.action.effects[k])
}

/// Whether an action is one of a task.
pub open spec fn is_of_task(cv: ContextView, a: StepActionView) -> bool {
    a == cv.init || a == cv.goal || cv.actions.contains(a)
}

/// Whether a plan's steps are its own, each once, and without quantifiers.
pub open spec fn has_own_steps(cv: ContextView, p: PlanView) -> bool {
    &&& forall|i: int|
        0 <= i < p.steps.len() ==> is_simple((#[trigger] p.steps[i]).action) && is_of_task(cv, p.steps[i].action) && (p.steps[i].id == INIT_ID ==> p.steps[i].action == cv.init) && (
        p.steps[i].id == GOAL_ID ==> p.steps[i].action == cv.goal)
    &&& forall|i: int, j: int| 0 <= i < j < p.steps.len() ==> (#[trigger] p.steps[i]).id != (#[trigger] p.steps[j]).id
}

/// Whether an open condition is a literal or a disjunction, and at the first step
/// says nothing of facts.
pub open spec fn is_fair(o: OpenView) -> bool {
    is_plain(o.condition) && is_open(o.condition) && (o.step_id == INIT_ID ==> fact_free(o.condition))
}

pub open spec fn are_fair(os: Seq<OpenView>) -> bool {
    forall|i: int| 0 <= i < os.len() ==> is_fair(#[trigger] os[i])
}

/// Whether the links of a plan run forward.
pub open spec fn run_forward(order: Set<(int, int)>, ls: Seq<LinkView>) -> bool {
    forall|i: int| 0 <= i < ls.len() ==> (#[trigger] ls[i]).to_id != INIT_ID && comes_before(order, ls[i].from_id as int, ls[i].to_id as int)
}

/// Whether the effects of threats are without quantifiers.
pub open spec fn are_plain_threats(us: Seq<UnsafeView>) -> bool {
    forall|i: int| 0 <= i < us.len() ==> (#[trigger] us[i]).effect.parameters.len() == 0 && is_plain(us[i].effect.condition)
}

/// What holds of every plan: every step is prepared, every link given and run
/// forward, and every effect covered for every link.
pub open spec fn is_causal(cv: ContextView, p: PlanView) -> bool {
    &&& is_bound_well(cv, p)
    &&& p.fresh.len() == 0
    &&& has_own_steps(cv, p)
    &&& are_fair(p.opens)
    &&& are_plain_threats(p.unsafes)
    &&& run_forward(p.order, p.links)
    &&& forall|j: int| 0 <= j < p.steps.len() ==> is_prepared(cv, p, #[trigger] p.steps[j])
    &&& forall|i: int| 0 <= i < p.links.len() ==> is_given(cv, p, #[trigger] p.links[i])
    &&& forall|i: int, j: int| 0 <= i < p.links.len() && 0 <= j < p.steps.len() ==> are_covered(cv, p, #[trigger] p.links[i], #[trigger] p.steps[j])
}

/// Whether what holds of a later plan holds of an earlier one: the objects that are
/// possible, what serves a step, and the order.
spec fn leads_to(cv: ContextView, p: PlanView, q: PlanView) -> bool {
    &&& forall|s: spec_fn(Variable, usize) -> Object| #[trigger] is_possible(cv, q, s) ==> is_possible(cv, p, s)
    &&& forall|s: spec_fn(Variable, usize) -> Object, facts: Set<(Predicate, Seq<Object>)>, id: usize|
        is_possible(cv, q, s) && #[trigger] is_served(q, s, facts, id) ==> is_served(p, s, facts, id)
    &&& forall|a: int, b: int| #[trigger] comes_before(p.order, a, b) ==> comes_before(q.order, a, b)
}

proof fn lemma_still_prepared(cv: ContextView, p: PlanView, q: PlanView, x: StepView)
    requires
        leads_to(cv, p, q),
        is_prepared(cv, p, x),
    ensures
        is_prepared(cv, q, x),
{
    assert forall|s: spec_fn(Variable, usize) -> Object, facts: Set<(Predicate, Seq<Object>)>|
        is_possible(cv, q, s) && #[trigger] is_served(q, s, facts, x.id) implies world_at(s, facts, x.id).holds(x.action.precondition) by {
        assert(is_served(p, s, facts, x.id));
    }
}

proof fn lemma_still_gives(cv: ContextView, p: PlanView, q: PlanView, l: LinkView, x: StepView, e: EffectView)
    requires
        leads_to(cv, p, q),
        gives(cv, p, l, x, e),
    ensures
        gives(cv, q, l, x, e),
{
    assert forall|s: spec_fn(Variable, usize) -> Object, facts: Set<(Predicate, Seq<Object>)>|
        is_possible(cv, q, s) && #[trigger] is_served(q, s, facts, x.id) implies {
        &&& world_at(s, facts, x.id).holds(e.condition)
        &&& world_at(s, facts, x.id).holds(e.link_condition)
        &&& equal_atoms(s, l.condition.atom, l.to_id, e.literal.atom, x.id)
    } by {
        assert(is_served(p, s, facts, x.id));
    }
}

proof fn lemma_still_given(cv: ContextView, p: PlanView, q: PlanView, l: LinkView)
    requires
        leads_to(cv, p, q),
        ends_with(q.steps, p.steps),
        is_given(cv, p, l),
    ensures
        is_given(cv, q, l),
{
    if is_absent(cv, p, l) {
        assert forall|s: spec_fn(Variable, usize) -> Object, facts: Set<(Predicate, Seq<Object>)>, k: int|
            is_possible(cv, q, s) && #[trigger] is_served(q, s, facts, INIT_ID) && 0 <= k < cv.init.effects.len() implies !equal_atoms(
            s,
            l.condition.atom,
            l.to_id,
            (#[trigger] cv.init.effects[k]).literal.atom,
            INIT_ID,
        ) by {
            assert(is_served(p, s, facts, INIT_ID));
        }
    } else {
        let (j, k) = choose|j: int, k: int|
            0 <= j < p.steps.len() && 0 <= k < p.steps[j].action.effects.len() && gives(
                cv,
                p,
                l,
                #[trigger] p.steps[j],
                #[trigger] p.steps[j].action.effects[k],
            );
        let d = q.steps.len() - p.steps.len();
        assert(q.steps.skip(d)[j] == q.steps[d + j]);
        lemma_still_gives(cv, p, q, l, p.steps[j], p.steps[j].action.effects[k]);
        assert(gives(cv, q, l, q.steps[d + j], q.steps[d + j].action.effects[k]));
    }
}

proof fn lemma_still_harmless(cv: ContextView, p: PlanView, q: PlanView, l: LinkView, x: StepView, e: EffectView)
    requires
        leads_to(cv, p, q),
        is_harmless(cv, p, l, x, e),
    ensures
        is_harmless(cv, q, l, x, e),
{
    assert forall|s: spec_fn(Variable, usize) -> Object, facts: Set<(Predicate, Seq<Object>)>|
        is_possible(cv, q, s) && #[trigger] is_served(q, s, facts, x.id) && equal_atoms(s, l.condition.atom, l.to_id, e.literal.atom, x.id)
            implies !world_at(s, facts, x.id).holds(e.condition) by {
        assert(is_served(p, s, facts, x.id));
    }
}

/// A threat that a refinement leaves listed or resolves otherwise stays covered.
proof fn lemma_still_covered(cv: ContextView, p: PlanView, q: PlanView, l: LinkView, x: StepView, e: EffectView)
    requires
        leads_to(cv, p, q),
        is_covered(cv, p, l, x, e),
        p.unsafes.contains(UnsafeView { link: l, step_id: x.id, effect: e }) ==> q.unsafes.contains(
            UnsafeView { link: l, step_id: x.id, effect: e },
        ) || is_covered(cv, q, l, x, e),
    ensures
        is_covered(cv, q, l, x, e),
{
    if is_harmless(cv, p, l, x, e) {
        lemma_still_harmless(cv, p, q, l, x, e);
    }
}

pub proof fn lemma_swapped(s: spec_fn(Variable, usize) -> Object, a: AtomView, i: usize, b: AtomView, j: usize)
    requires
        equal_atoms(s, a, i, b, j),
    ensures
        equal_atoms(s, b, j, a, i),
{
    assert forall|k: int| 0 <= k < b.terms.len() implies value(s, #[trigger] b.terms[k], j) == value(s, a.terms[k], i) by {
        assert(value(s, a.terms[k], i) == value(s, b.terms[k], j));
    }
}

pub proof fn lemma_hierarchy(cv: ContextView, p: PlanView)
    requires
        is_simple_task(cv),
    ensures
        is_hierarchy(p.typing(cv)),
        is_transitive(p.typing(cv)),
{
    let t = cv.typing(types_at(cv, seq![], seq![]));
    let u = p.typing(cv);
    assert forall|a: crate::types::Type, b: crate::types::Type| #[trigger] u.below(a, b) == t.below(a, b) by {}
    assert forall|x: crate::types::Type, a: crate::types::Type, b: crate::types::Type| #[trigger]
        u.below(x, a) && #[trigger] u.below(x, b) implies u.meet(a, b) is Some by {
        assert(t.below(x, a) && t.below(x, b));
        assert(t.meet(a, b) is Some);
    }
    assert forall|a: crate::types::Type, b: crate::types::Type, c: crate::types::Type| #[trigger]
        u.below(a, b) && #[trigger] u.below(b, c) implies u.below(a, c) by {
        assert(t.below(a, b) && t.below(b, c));
    }
}

/// An effect that does not unify with the contrary of a link's condition is
/// harmless.
proof fn lemma_no_clash(cv: ContextView, q: PlanView, l: LinkView, x: StepView, e: EffectView)
    requires
        is_simple_task(cv),
        sound(q.typing(cv), q.classes),
        e.literal.negative != l.condition.negative,
        !literals_clash(q.typing(cv), q.classes, seq![], e.literal, x.id, l.condition, l.to_id),
    ensures
        is_harmless(cv, q, l, x, e),
{
    lemma_hierarchy(cv, q);
    assert forall|s: spec_fn(Variable, usize) -> Object, facts: Set<(Predicate, Seq<Object>)>|
        is_possible(cv, q, s) && #[trigger] is_served(q, s, facts, x.id) && equal_atoms(s, l.condition.atom, l.to_id, e.literal.atom, x.id)
            implies !world_at(s, facts, x.id).holds(e.condition) by {
        unifier_is_most_general(q.typing(cv), q.classes, l.condition.atom, l.to_id, e.literal.atom, x.id, s);
    }
}

/// Where the threats that a step's effects make are listed, the effects are
/// covered.
proof fn lemma_listed_effects(cv: ContextView, q: PlanView, l: LinkView, x: StepView, n: nat)
    requires
        is_simple_task(cv),
        sound(q.typing(cv), q.classes),
        n <= x.action.effects.len(),
        forall|u: UnsafeView| effect_threats(q.typing(cv), q.classes, q.order, l, x, n).contains(u) ==> #[trigger] q.unsafes.contains(u),
    ensures
        forall|k: int| 0 <= k < n ==> is_covered(cv, q, l, x, #[trigger] x.action.effects[k]),
    decreases n,
{
    if n > 0 {
        let t = q.typing(cv);
        let e = x.action.effects[n - 1];
        let rest = effect_threats(t, q.classes, q.order, l, x, (n - 1) as nat);
        let all = effect_threats(t, q.classes, q.order, l, x, n);
        let u = UnsafeView { link: l, step_id: x.id, effect: e };
        assert forall|v: UnsafeView| rest.contains(v) implies #[trigger] q.unsafes.contains(v) by {
            let i = choose|i: int| 0 <= i < rest.len() && rest[i] == v;
            if threatens(t, q.classes, q.order, l, x, e) {
                assert(all == seq![u] + rest);
                assert(all[i + 1] == v);
            }
            assert(all.contains(v));
        }
        lemma_listed_effects(cv, q, l, x, (n - 1) as nat);
        if threatens(t, q.classes, q.order, l, x, e) {
            assert(all[0] == u);
            assert(all.contains(u));
            assert(q.unsafes.contains(u));
        } else if e.literal.negative != l.condition.negative && !literals_clash(t, q.classes, seq![], e.literal, x.id, l.condition, l.to_id) {
            lemma_no_clash(cv, q, l, x, e);
        }
        assert forall|k: int| 0 <= k < n implies is_covered(cv, q, l, x, #[trigger] x.action.effects[k]) by {
            if k == n - 1 {
                assert(x.action.effects[k] == e);
            }
        }
    }
}

proof fn lemma_listed_to(cv: ContextView, q: PlanView, l: LinkView, steps: Seq<StepView>, n: nat)
    requires
        is_simple_task(cv),
        sound(q.typing(cv), q.classes),
        n <= steps.len(),
        forall|u: UnsafeView| threats_to(q.typing(cv), q.classes, q.order, l, steps, n).contains(u) ==> #[trigger] q.unsafes.contains(u),
    ensures
        forall|j: int| 0 <= j < n ==> are_covered(cv, q, l, #[trigger] steps[j]),
    decreases n,
{
    if n > 0 {
        let t = q.typing(cv);
        let x = steps[n - 1];
        let a = effect_threats(t, q.classes, q.order, l, x, x.action.effects.len());
        let b = threats_to(t, q.classes, q.order, l, steps, (n - 1) as nat);
        let all = threats_to(t, q.classes, q.order, l, steps, n);
        assert(all == a + b);
        assert forall|u: UnsafeView| b.contains(u) implies #[trigger] q.unsafes.contains(u) by {
            let i = choose|i: int| 0 <= i < b.len() && b[i] == u;
            assert(all[a.len() + i] == u);
            assert(all.contains(u));
        }
        assert forall|u: UnsafeView| a.contains(u) implies #[trigger] q.unsafes.contains(u) by {
            let i = choose|i: int| 0 <= i < a.len() && a[i] == u;
            assert(all[i] == u);
            assert(all.contains(u));
        }
        lemma_listed_to(cv, q, l, steps, (n - 1) as nat);
        lemma_listed_effects(cv, q, l, x, x.action.effects.len());
        assert forall|j: int| 0 <= j < n implies are_covered(cv, q, l, #[trigger] steps[j]) by {
            if j == n - 1 {
                assert(steps[j] == x);
            }
        }
    }
}

proof fn lemma_listed_by(cv: ContextView, q: PlanView, ls: Seq<LinkView>, x: StepView, n: nat)
    requires
        is_simple_task(cv),
        sound(q.typing(cv), q.classes),
        n <= ls.len(),
        forall|u: UnsafeView| threats_by(q.typing(cv), q.classes, q.order, ls, x, n).contains(u) ==> #[trigger] q.unsafes.contains(u),
    ensures
        forall|i: int| 0 <= i < n ==> are_covered(cv, q, #[trigger] ls[i], x),
    decreases n,
{
    if n > 0 {
        let t = q.typing(cv);
        let l = ls[n - 1];
        let a = effect_threats(t, q.classes, q.order, l, x, x.action.effects.len());
        let b = threats_by(t, q.classes, q.order, ls, x, (n - 1) as nat);
        let all = threats_by(t, q.classes, q.order, ls, x, n);
        assert(all == a + b);
        assert forall|u: UnsafeView| b.contains(u) implies #[trigger] q.unsafes.contains(u) by {
            let i = choose|i: int| 0 <= i < b.len() && b[i] == u;
            assert(all[a.len() + i] == u);
            assert(all.contains(u));
        }
        assert forall|u: UnsafeView| a.contains(u) implies #[trigger] q.unsafes.contains(u) by {
            let i = choose|i: int| 0 <= i < a.len() && a[i] == u;
            assert(all[i] == u);
            assert(all.contains(u));
        }
        lemma_listed_by(cv, q, ls, x, (n - 1) as nat);
        lemma_listed_effects(cv, q, l, x, x.action.effects.len());
        assert forall|i: int| 0 <= i < n implies are_covered(cv, q, #[trigger] ls[i], x) by {
            if i == n - 1 {
                assert(ls[i] == l);
            }
        }
    }
}

pub proof fn lemma_has_step(steps: Seq<StepView>, id: usize) -> (i: int)
    requires
        action_of(steps, id) is Some,
    ensures
        0 <= i < steps.len(),
        steps[i].id == id,
    decreases steps.len(),
{
    if steps[0].id == id {
        0
    } else {
        let i = lemma_has_step(steps.drop_first(), id);
        i + 1
    }
}

proof fn lemma_under_object(cv: ContextView, p: PlanView, o: Object)
    requires
        is_simple_task(cv),
    ensures
        p.typing(cv).below(p.typing(cv).object_ty(o), crate::types::Type(crate::types::OBJECT)),
{
    let t = p.typing(cv);
    assert(t.object_ty(o).0 < t.table.len());
}

/// Objects of the types of a plan's variables are of those of a plan with a step
/// less.
proof fn lemma_typed_before(cv: ContextView, p: PlanView, q: PlanView, s: spec_fn(Variable, usize) -> Object)
    requires
        is_simple_task(cv),
        p.fresh.len() == 0,
        q.fresh.len() == 0,
        has_own_steps(cv, q),
        q.steps == p.steps || (q.steps.len() > 0 && q.steps.drop_first() == p.steps),
        well_typed(q.typing(cv), s),
    ensures
        well_typed(p.typing(cv), s),
{
    let t = p.typing(cv);
    let u = q.typing(cv);
    assert forall|v: Variable, id: usize| #[trigger] t.below(t.object_ty(s(v, id)), t.var_ty(v, id)) by {
        assert(u.below(u.object_ty(s(v, id)), u.var_ty(v, id)));
        lemma_under_object(cv, p, s(v, id));
        if q.steps != p.steps && q.steps[0].id == id && action_of(p.steps, id) is Some {
            let i = lemma_has_step(p.steps, id);
            assert(q.steps.drop_first()[i] == q.steps[i + 1]);
        }
    }
}

pub proof fn lemma_removed_other<V>(s: Seq<V>, x: V, y: V)
    requires
        s.contains(x),
        x != y,
    ensures
        removed(s, y).contains(x),
    decreases s.len(),
{
    let i = choose|i: int| 0 <= i < s.len() && s[i] == x;
    if s[0] == y {
        assert(s.drop_first()[i - 1] == x);
    } else {
        let rest = removed(s.drop_first(), y);
        let all = seq![s[0]] + rest;
        if i == 0 {
            assert(all[0] == x);
        } else {
            assert(s.drop_first()[i - 1] == x);
            lemma_removed_other(s.drop_first(), x, y);
            let j = choose|j: int| 0 <= j < rest.len() && rest[j] == x;
            assert(all[j + 1] == x);
        }
    }
}

pub proof fn lemma_removed_from<V>(s: Seq<V>, y: V, i: int) -> (j: int)
    requires
        0 <= i < removed(s, y).len(),
    ensures
        0 <= j < s.len(),
        s[j] == removed(s, y)[i],
    decreases s.len(),
{
    if s[0] == y {
        assert(s.drop_first()[i] == s[i + 1]);
        i + 1
    } else if i == 0 {
        0
    } else {
        let j = lemma_removed_from(s.drop_first(), y, i - 1);
        assert(s.drop_first()[j] == s[j + 1]);
        j + 1
    }
}

proof fn lemma_fair_without(os: Seq<OpenView>, oc: OpenView)
    requires
        are_fair(os),
    ensures
        are_fair(removed(os, oc)),
{
    assert forall|i: int| 0 <= i < removed(os, oc).len() implies is_fair(#[trigger] removed(os, oc)[i]) by {
        let j = lemma_removed_from(os, oc, i);
        assert(is_fair(os[j]));
    }
}

pub proof fn lemma_in_tail<V>(s: Seq<V>, tail: Seq<V>, i: int)
    requires
        ends_with(s, tail),
        0 <= i < tail.len(),
    ensures
        0 <= s.len() - tail.len() + i < s.len(),
        s[s.len() - tail.len() + i] == tail[i],
{
    assert(s.skip(s.len() - tail.len())[i] == s[s.len() - tail.len() + i]);
}

/// Whether a plan is a refinement of a causal plan by one of its flaws, where there
/// is room to number another step.
spec fn refines(cv: ContextView, p: PlanView, flaw: FlawView, q: PlanView) -> bool {
    &&& is_simple_task(cv)
    &&& is_causal(cv, p)
    &&& p.num_steps + 1 < usize::MAX
    &&& is_flaw_of(p, flaw)
    &&& flaw_plans(cv, p, flaw).contains(q)
}

/// What every refinement has.
proof fn lemma_refined(cv: ContextView, p: PlanView, flaw: FlawView, q: PlanView)
    requires
        refines(cv, p, flaw, q),
    ensures
        keeps_all_but(p, flaw, q),
        is_bound_well(cv, q),
        sound(q.typing(cv), q.classes),
        sound(q.typing(cv), p.classes),
        forall|s: spec_fn(Variable, usize) -> Object| #[trigger] admits(q.classes, s) ==> admits(p.classes, s),
{
    refinement_keeps_all_but_the_flaw(cv, p, flaw);
    refinement_adds_bindings(cv, p, flaw);
    lemma_hierarchy(cv, p);
    bindings_of_plans_arise(cv, p, flaw);
    scoped_plans_are_settled(cv, p);
    let plans = flaw_plans(cv, p, flaw);
    let i = choose|i: int| 0 <= i < plans.len() && plans[i] == q;
    assert(adds_bindings(cv, p, plans[i]));
    assert(keeps_all_but(p, flaw, plans[i]));
    assert(is_bound_well(cv, plans[i]));
    arising_looks_at_own_variables(p.typing(cv), q.typing(cv), p.classes);
    let bs = choose|bs: Seq<Binding>| #[trigger] bound_all(q.typing(cv), p.classes, bs) == Some(q.classes);
    assert forall|s: spec_fn(Variable, usize) -> Object| #[trigger] admits(q.classes, s) implies admits(p.classes, s) by {
        bindings_are_exact(q.typing(cv), p.classes, bs, q.classes, s);
    }
}

/// Whether the refined open condition holds wherever what the refinement has for
/// its step does.
spec fn settles(cv: ContextView, q: PlanView, oc: OpenView) -> bool {
    forall|s: spec_fn(Variable, usize) -> Object, facts: Set<(Predicate, Seq<Object>)>|
        is_possible(cv, q, s) && #[trigger] is_served(q, s, facts, oc.step_id) ==> world_at(s, facts, oc.step_id).holds(oc.condition)
}

proof fn lemma_leads(cv: ContextView, p: PlanView, flaw: FlawView, q: PlanView)
    requires
        refines(cv, p, flaw, q),
        q.fresh.len() == 0,
        has_own_steps(cv, q),
        q.steps == p.steps || (q.steps.len() > 0 && q.steps.drop_first() == p.steps),
        forall|a: int, b: int| #[trigger] comes_before(p.order, a, b) ==> comes_before(q.order, a, b),
        flaw matches FlawView::OpenCondition(oc) ==> settles(cv, q, oc),
    ensures
        leads_to(cv, p, q),
{
    lemma_refined(cv, p, flaw, q);
    assert forall|s: spec_fn(Variable, usize) -> Object| #[trigger] is_possible(cv, q, s) implies is_possible(cv, p, s) by {
        lemma_typed_before(cv, p, q, s);
    }
    assert forall|s: spec_fn(Variable, usize) -> Object, facts: Set<(Predicate, Seq<Object>)>, id: usize|
        is_possible(cv, q, s) && #[trigger] is_served(q, s, facts, id) implies is_served(p, s, facts, id) by {
        let w = world_at(s, facts, id);
        assert forall|i: int| 0 <= i < p.opens.len() && (#[trigger] p.opens[i]).step_id == id implies w.holds(p.opens[i].condition) by {
            let o = p.opens[i];
            match flaw {
                FlawView::Unsafe(_) => {
                    lemma_in_tail(q.opens, p.opens, i);
                },
                FlawView::OpenCondition(oc) => {
                    if o != oc {
                        assert(p.opens.contains(o));
                        lemma_removed_other(p.opens, o, oc);
                        let left = removed(p.opens, oc);
                        let k = choose|k: int| 0 <= k < left.len() && left[k] == o;
                        lemma_in_tail(q.opens, left, k);
                    } else {
                        assert(is_served(q, s, facts, oc.step_id));
                    }
                },
            }
        }
        assert forall|i: int| 0 <= i < p.links.len() && (#[trigger] p.links[i]).to_id == id implies is_so(s, facts, p.links[i].condition, id) by {
            lemma_in_tail(q.links, p.links, i);
        }
    }
}

/// What is covered stays so, but for a refined threat.
proof fn lemma_old_covered(cv: ContextView, p: PlanView, flaw: FlawView, q: PlanView, l: LinkView, x: StepView)
    requires
        leads_to(cv, p, q),
        keeps_all_but(p, flaw, q),
        are_covered(cv, p, l, x),
        flaw matches FlawView::Unsafe(u) ==> forall|x: StepView| x.id == u.step_id ==> #[trigger] is_covered(cv, q, u.link, x, u.effect),
    ensures
        are_covered(cv, q, l, x),
{
    assert forall|k: int| 0 <= k < x.action.effects.len() implies is_covered(cv, q, l, x, #[trigger] x.action.effects[k]) by {
        let e = x.action.effects[k];
        let u = UnsafeView { link: l, step_id: x.id, effect: e };
        if p.unsafes.contains(u) {
            match flaw {
                FlawView::OpenCondition(_) => {
                    let m = choose|m: int| 0 <= m < p.unsafes.len() && p.unsafes[m] == u;
                    lemma_in_tail(q.unsafes, p.unsafes, m);
                },
                FlawView::Unsafe(u0) => {
                    if u != u0 {
                        lemma_removed_other(p.unsafes, u, u0);
                    } else {
                        assert(is_covered(cv, q, u0.link, x, u0.effect));
                    }
                },
            }
        }
        lemma_still_covered(cv, p, q, l, x, e);
    }
}

proof fn lemma_all_prepared(cv: ContextView, p: PlanView, q: PlanView)
    requires
        leads_to(cv, p, q),
        ends_with(q.steps, p.steps),
        q.steps.len() <= p.steps.len() + 1,
        forall|j: int| 0 <= j < p.steps.len() ==> is_prepared(cv, p, #[trigger] p.steps[j]),
        q.steps.len() > p.steps.len() ==> is_prepared(cv, q, q.steps[0]),
    ensures
        forall|j: int| 0 <= j < q.steps.len() ==> is_prepared(cv, q, #[trigger] q.steps[j]),
{
    let d = q.steps.len() - p.steps.len();
    assert forall|j: int| 0 <= j < q.steps.len() implies is_prepared(cv, q, #[trigger] q.steps[j]) by {
        if j >= d {
            lemma_in_tail(q.steps, p.steps, j - d);
            assert(is_prepared(cv, p, p.steps[j - d]));
            lemma_still_prepared(cv, p, q, p.steps[j - d]);
        }
    }
}

proof fn lemma_all_given(cv: ContextView, p: PlanView, q: PlanView)
    requires
        leads_to(cv, p, q),
        ends_with(q.steps, p.steps),
        ends_with(q.links, p.links),
        q.links.len() <= p.links.len() + 1,
        run_forward(p.order, p.links),
        forall|i: int| 0 <= i < p.links.len() ==> is_given(cv, p, #[trigger] p.links[i]),
        q.links.len() > p.links.len() ==> is_given(cv, q, q.links[0]) && q.links[0].to_id != INIT_ID && comes_before(
            q.order,
            q.links[0].from_id as int,
            q.links[0].to_id as int,
        ),
    ensures
        run_forward(q.order, q.links),
        forall|i: int| 0 <= i < q.links.len() ==> is_given(cv, q, #[trigger] q.links[i]),
{
    let d = q.links.len() - p.links.len();
    assert forall|i: int| 0 <= i < q.links.len() implies is_given(cv, q, #[trigger] q.links[i]) by {
        if i >= d {
            lemma_in_tail(q.links, p.links, i - d);
            assert(is_given(cv, p, p.links[i - d]));
            lemma_still_given(cv, p, q, p.links[i - d]);
        }
    }
    assert forall|i: int| 0 <= i < q.links.len() implies (#[trigger] q.links[i]).to_id != INIT_ID && comes_before(
        q.order,
        q.links[i].from_id as int,
        q.links[i].to_id as int,
    ) by {
        if i >= d {
            lemma_in_tail(q.links, p.links, i - d);
            let l = p.links[i - d];
            assert(comes_before(p.order, l.from_id as int, l.to_id as int));
        }
    }
}

proof fn lemma_all_covered(cv: ContextView, p: PlanView, flaw: FlawView, q: PlanView)
    requires
        leads_to(cv, p, q),
        keeps_all_but(p, flaw, q),
        q.links.len() <= p.links.len() + 1,
        forall|i: int, j: int| 0 <= i < p.links.len() && 0 <= j < p.steps.len() ==> are_covered(cv, p, #[trigger] p.links[i], #[trigger] p.steps[j]),
        q.steps.len() > p.steps.len() ==> forall|i: int| 0 <= i < p.links.len() ==> are_covered(cv, q, #[trigger] p.links[i], q.steps[0]),
        q.links.len() > p.links.len() ==> forall|j: int| 0 <= j < q.steps.len() ==> are_covered(cv, q, q.links[0], #[trigger] q.steps[j]),
        flaw matches FlawView::Unsafe(u) ==> forall|x: StepView| x.id == u.step_id ==> #[trigger] is_covered(cv, q, u.link, x, u.effect),
    ensures
        forall|i: int, j: int| 0 <= i < q.links.len() && 0 <= j < q.steps.len() ==> are_covered(cv, q, #[trigger] q.links[i], #[trigger] q.steps[j]),
{
    let ds = q.steps.len() - p.steps.len();
    let dl = q.links.len() - p.links.len();
    assert forall|i: int, j: int| 0 <= i < q.links.len() && 0 <= j < q.steps.len() implies are_covered(
        cv,
        q,
        #[trigger] q.links[i],
        #[trigger] q.steps[j],
    ) by {
        if i >= dl {
            lemma_in_tail(q.links, p.links, i - dl);
            let l = p.links[i - dl];
            if j >= ds {
                lemma_in_tail(q.steps, p.steps, j - ds);
                let x = p.steps[j - ds];
                assert(are_covered(cv, p, l, x));
                lemma_old_covered(cv, p, flaw, q, l, x);
            } else {
                assert(are_covered(cv, q, l, q.steps[0]));
            }
        }
    }
}

/// A refinement is causal where its new parts are.
proof fn lemma_assembled(cv: ContextView, p: PlanView, flaw: FlawView, q: PlanView)
    requires
        refines(cv, p, flaw, q),
        leads_to(cv, p, q),
        q.fresh.len() == 0,
        has_own_steps(cv, q),
        are_fair(q.opens),
        are_plain_threats(q.unsafes),
        q.links.len() <= p.links.len() + 1,
        q.steps.len() > p.steps.len() ==> is_prepared(cv, q, q.steps[0]) && forall|i: int|
            0 <= i < p.links.len() ==> are_covered(cv, q, #[trigger] p.links[i], q.steps[0]),
        q.links.len() > p.links.len() ==> is_given(cv, q, q.links[0]) && q.links[0].to_id != INIT_ID && comes_before(
            q.order,
            q.links[0].from_id as int,
            q.links[0].to_id as int,
        ) && forall|j: int| 0 <= j < q.steps.len() ==> are_covered(cv, q, q.links[0], #[trigger] q.steps[j]),
        flaw matches FlawView::Unsafe(u) ==> forall|x: StepView| x.id == u.step_id ==> #[trigger] is_covered(cv, q, u.link, x, u.effect),
    ensures
        is_causal(cv, q),
{
    lemma_refined(cv, p, flaw, q);
    lemma_all_prepared(cv, p, q);
    lemma_all_given(cv, p, q);
    lemma_all_covered(cv, p, flaw, q);
}

proof fn lemma_threats_without(us: Seq<UnsafeView>, u: UnsafeView)
    requires
        are_plain_threats(us),
    ensures
        are_plain_threats(removed(us, u)),
{
    assert forall|i: int| 0 <= i < removed(us, u).len() implies (#[trigger] removed(us, u)[i]).effect.parameters.len() == 0 && is_plain(
        removed(us, u)[i].effect.condition,
    ) by {
        let j = lemma_removed_from(us, u, i);
        assert(us[j].effect.parameters.len() == 0);
    }
}

proof fn lemma_plain_both(a: Seq<UnsafeView>, b: Seq<UnsafeView>)
    requires
        are_plain_threats(a),
        are_plain_threats(b),
    ensures
        are_plain_threats(a + b),
{
    assert forall|i: int| 0 <= i < (a + b).len() implies (#[trigger] (a + b)[i]).effect.parameters.len() == 0 && is_plain(
        (a + b)[i].effect.condition,
    ) by {
        if i < a.len() {
            assert((a + b)[i] == a[i]);
        } else {
            assert((a + b)[i] == b[i - a.len()]);
        }
    }
}

proof fn lemma_plain_effects(t: Typing, sets: Seq<Class>, order: Set<(int, int)>, l: LinkView, x: StepView, n: nat)
    requires
        is_simple(x.action),
        n <= x.action.effects.len(),
    ensures
        are_plain_threats(effect_threats(t, sets, order, l, x, n)),
    decreases n,
{
    if n > 0 {
        let e = x.action.effects[n - 1];
        lemma_plain_effects(t, sets, order, l, x, (n - 1) as nat);
        lemma_plain_both(seq![UnsafeView { link: l, step_id: x.id, effect: e }], effect_threats(t, sets, order, l, x, (n - 1) as nat));
    }
}

proof fn lemma_plain_to(t: Typing, sets: Seq<Class>, order: Set<(int, int)>, l: LinkView, steps: Seq<StepView>, n: nat)
    requires
        n <= steps.len(),
        forall|j: int| 0 <= j < steps.len() ==> is_simple((#[trigger] steps[j]).action),
    ensures
        are_plain_threats(threats_to(t, sets, order, l, steps, n)),
    decreases n,
{
    if n > 0 {
        let x = steps[n - 1];
        lemma_plain_to(t, sets, order, l, steps, (n - 1) as nat);
        lemma_plain_effects(t, sets, order, l, x, x.action.effects.len());
        lemma_plain_both(effect_threats(t, sets, order, l, x, x.action.effects.len()), threats_to(t, sets, order, l, steps, (n - 1) as nat));
    }
}

proof fn lemma_plain_by(t: Typing, sets: Seq<Class>, order: Set<(int, int)>, ls: Seq<LinkView>, x: StepView, n: nat)
    requires
        is_simple(x.action),
        n <= ls.len(),
    ensures
        are_plain_threats(threats_by(t, sets, order, ls, x, n)),
    decreases n,
{
    if n > 0 {
        lemma_plain_by(t, sets, order, ls, x, (n - 1) as nat);
        lemma_plain_effects(t, sets, order, ls[n - 1], x, x.action.effects.len());
        lemma_plain_both(
            effect_threats(t, sets, order, ls[n - 1], x, x.action.effects.len()),
            threats_by(t, sets, order, ls, x, (n - 1) as nat),
        );
    }
}

proof fn lemma_ordered(order: Set<(int, int)>, i: int, j: int, after: Set<(int, int)>)
    requires
        ordered_pair(order, i, j) == Some(after),
    ensures
        forall|a: int, b: int| #[trigger] comes_before(order, a, b) ==> comes_before(after, a, b),
        comes_before(after, i, j),
{
}

/// Ordering a threat out of the way keeps a plan causal.
proof fn lemma_ordered_causal(cv: ContextView, p: PlanView, u: UnsafeView, before: usize, after: usize, q: PlanView)
    requires
        refines(cv, p, FlawView::Unsafe(u), q),
        ordered_plan(p, u, before, after) == Some(q),
        (before == u.link.to_id && after == u.step_id) || (before == u.step_id && after == u.link.from_id),
    ensures
        is_causal(cv, q),
{
    let flaw = FlawView::Unsafe(u);
    lemma_threats_without(p.unsafes, u);
    lemma_ordered(p.order, before as int, after as int, q.order);
    lemma_leads(cv, p, flaw, q);
    assert forall|x: StepView| x.id == u.step_id implies #[trigger] is_covered(cv, q, u.link, x, u.effect) by {}
    lemma_assembled(cv, p, flaw, q);
}

/// Dropping a threat that is none any more keeps a plan causal.
proof fn lemma_dropped_causal(cv: ContextView, p: PlanView, u: UnsafeView, q: PlanView)
    requires
        refines(cv, p, FlawView::Unsafe(u), q),
        q == (PlanView { unsafes: removed(p.unsafes, u), ..p }),
        !is_threat(cv, p, u),
    ensures
        is_causal(cv, q),
{
    let flaw = FlawView::Unsafe(u);
    lemma_threats_without(p.unsafes, u);
    lemma_refined(cv, p, flaw, q);
    lemma_leads(cv, p, flaw, q);
    assert forall|x: StepView| x.id == u.step_id implies #[trigger] is_covered(cv, q, u.link, x, u.effect) by {
        if u.effect.literal.negative != u.link.condition.negative && !literals_clash(
            q.typing(cv),
            q.classes,
            seq![],
            u.effect.literal,
            x.id,
            u.link.condition,
            u.link.to_id,
        ) {
            lemma_no_clash(cv, q, u.link, x, u.effect);
        }
    }
    lemma_assembled(cv, p, flaw, q);
}

pub proof fn lemma_some_parted(s: spec_fn(Variable, usize) -> Object, facts: Set<(Predicate, Seq<Object>)>, id: usize, u: Seq<Binding>, n: nat)
    requires
        n <= u.len(),
        all_equalities(u),
    ensures
        is_plain(some_parted(u, n)),
        fact_free(some_parted(u, n)),
        world_at(s, facts, id).holds(some_parted(u, n)) ==> !meets_all(s, u),
    decreases n,
{
    if n > 0 {
        let w = world_at(s, facts, id);
        let rest = some_parted(u, (n - 1) as nat);
        lemma_some_parted(s, facts, id, u, (n - 1) as nat);
        lemma_plain_joined(rest, parting(u[n - 1]));
        lemma_fact_free_joined(rest, parting(u[n - 1]));
        disjunction_is_exact(w, rest, parting(u[n - 1]));
        if w.holds(parting(u[n - 1])) {
            assert(!meets(s, u[n - 1]));
        }
    }
}

pub proof fn lemma_some_separated(
    s: spec_fn(Variable, usize) -> Object,
    facts: Set<(Predicate, Seq<Object>)>,
    p: PlanView,
    u: UnsafeView,
    bs: Seq<Binding>,
    n: nat,
)
    requires
        n <= bs.len(),
        all_equalities(bs),
    ensures
        is_plain(some_separated(p, u, bs, n)),
        world_at(s, facts, u.step_id).holds(some_separated(p, u, bs, n)) ==> !meets_all(s, bs),
    decreases n,
{
    if n > 0 {
        let w = world_at(s, facts, u.step_id);
        let rest = some_separated(p, u, bs, (n - 1) as nat);
        lemma_some_separated(s, facts, p, u, bs, (n - 1) as nat);
        lemma_plain_joined(rest, parting(bs[n - 1]));
        disjunction_is_exact(w, rest, parting(bs[n - 1]));
        if w.holds(parting(bs[n - 1])) {
            assert(!meets(s, bs[n - 1]));
        }
    }
}

/// What a plan with a goal added has, under the classes with the goal's bindings:
/// the goal holds at its step wherever what the plan has for the step does.
proof fn lemma_goal_holds(
    cv: ContextView,
    classes: Seq<Class>,
    q: PlanView,
    a: Agenda,
    f: FormulaView,
    id: usize,
    b: Agenda,
    s: spec_fn(Variable, usize) -> Object,
    facts: Set<(Predicate, Seq<Object>)>,
)
    requires
        is_plain(f),
        sound(q.typing(cv), classes),
        with_goal(q.typing(cv), a, f, id) == Some(b),
        bound_all(q.typing(cv), classes, b.binds) == Some(q.classes),
        q.opens == b.opens,
        is_possible(cv, q, s),
        is_served(q, s, facts, id),
    ensures
        world_at(s, facts, id).holds(f),
{
    bindings_are_exact(q.typing(cv), classes, b.binds, q.classes, s);
    lemma_goal_served(q.typing(cv), s, facts, a, f, id, b);
    assert(opens_hold(b.opens, world_at(s, facts, id), id));
}

proof fn lemma_fair_front(t: Typing, a: Agenda, f: FormulaView, id: usize, b: Agenda)
    requires
        is_plain(f),
        with_goal(t, a, f, id) == Some(b),
        are_fair(a.opens),
        id == INIT_ID ==> fact_free(f),
    ensures
        are_fair(b.opens),
{
    lemma_goal_served(t, |v: Variable, i: usize| Object(0), Set::empty(), a, f, id, b);
    let d = b.opens.len() - a.opens.len();
    assert forall|i: int| 0 <= i < b.opens.len() implies is_fair(#[trigger] b.opens[i]) by {
        if i >= d {
            lemma_in_tail(b.opens, a.opens, i - d);
            assert(is_fair(a.opens[i - d]));
        }
    }
}

/// Separating a threat from its link keeps a plan causal.
proof fn lemma_separated_causal(cv: ContextView, p: PlanView, u: UnsafeView, q: PlanView)
    requires
        refines(cv, p, FlawView::Unsafe(u), q),
        is_threat(cv, p, u),
        separated_plan(cv, p, u) == Some(q),
        u.effect.parameters.len() == 0,
        is_plain(u.effect.condition),
    ensures
        is_causal(cv, q),
{
    let flaw = FlawView::Unsafe(u);
    lemma_threats_without(p.unsafes, u);
    let r = separation_names(cv, p, u);
    assert(r == (Renaming { subst: seq![], fresh: p.fresh }));
    let bs = threat_unifier(cv, p, u);
    let f = separation(p, u, bs, r);
    let q0 = PlanView { unsafes: removed(p.unsafes, u), fresh: r.fresh, ..p };
    let t = q0.typing(cv);
    let a = with_goal(t, Agenda { opens: p.opens, binds: seq![] }, f, u.step_id)->0;
    assert(q.typing(cv) == t);
    assert(p.typing(cv) == t);
    lemma_refined(cv, p, flaw, q);
    unifiers_are_equalities(t, p.classes, u.link.condition.atom, u.link.to_id, u.effect.literal.atom, u.step_id);
    let apart = some_separated(p, u, bs, bs.len());
    assert(is_plain(f)) by {
        lemma_some_separated(|v: Variable, i: usize| Object(0), Set::empty(), p, u, bs, bs.len());
        lemma_plain_negated(u.effect.condition);
        lemma_plain_joined(apart, negated(u.effect.condition));
    }
    lemma_fair_front(t, Agenda { opens: p.opens, binds: seq![] }, f, u.step_id, a);
    lemma_leads(cv, p, flaw, q);
    assert forall|x: StepView| x.id == u.step_id implies #[trigger] is_covered(cv, q, u.link, x, u.effect) by {
        assert forall|s: spec_fn(Variable, usize) -> Object, facts: Set<(Predicate, Seq<Object>)>|
            is_possible(cv, q, s) && #[trigger] is_served(q, s, facts, x.id) && equal_atoms(
                s,
                u.link.condition.atom,
                u.link.to_id,
                u.effect.literal.atom,
                x.id,
            ) implies !world_at(s, facts, x.id).holds(u.effect.condition) by {
            let w = world_at(s, facts, x.id);
            lemma_goal_holds(cv, p.classes, q, Agenda { opens: p.opens, binds: seq![] }, f, u.step_id, a, s, facts);
            lemma_hierarchy(cv, p);
            assert(is_possible(cv, p, s));
            unifier_is_most_general(t, p.classes, u.link.condition.atom, u.link.to_id, u.effect.literal.atom, u.step_id, s);
            lemma_some_separated(s, facts, p, u, bs, bs.len());
            disjunction_is_exact(w, apart, negated(u.effect.condition));
            negation_is_exact(w, u.effect.condition);
        }
    }
    lemma_assembled(cv, p, flaw, q);
}

/// Choosing a disjunct keeps a plan causal.
proof fn lemma_disjunct_causal(cv: ContextView, p: PlanView, oc: OpenView, ds: Seq<FormulaView>, k: int, q: PlanView)
    requires
        refines(cv, p, FlawView::OpenCondition(oc), q),
        oc.condition == FormulaView::Disjunction(ds),
        0 <= k < ds.len(),
        goal_plan(cv, p, removed(p.opens, oc), ds[k], oc.step_id) == Some(q),
    ensures
        is_causal(cv, q),
{
    let flaw = FlawView::OpenCondition(oc);
    let t = p.typing(cv);
    assert(q.typing(cv) == t);
    let start = Agenda { opens: removed(p.opens, oc), binds: seq![] };
    let a = with_goal(t, start, ds[k], oc.step_id)->0;
    let at = choose|i: int| 0 <= i < p.opens.len() && p.opens[i] == oc;
    assert(is_fair(p.opens[at]));
    assert(is_plain(ds[k]));
    lemma_refined(cv, p, flaw, q);
    lemma_fair_without(p.opens, oc);
    lemma_fair_front(t, start, ds[k], oc.step_id, a);
    assert forall|s: spec_fn(Variable, usize) -> Object, facts: Set<(Predicate, Seq<Object>)>|
        is_possible(cv, q, s) && #[trigger] is_served(q, s, facts, oc.step_id) implies world_at(s, facts, oc.step_id).holds(oc.condition) by {
        lemma_goal_holds(cv, p.classes, q, start, ds[k], oc.step_id, a, s, facts);
        assert(world_at(s, facts, oc.step_id).holds(ds[k]));
    }
    lemma_leads(cv, p, flaw, q);
    lemma_assembled(cv, p, flaw, q);
}

/// A literal that a link gives holds where the link's condition does.
proof fn lemma_link_settles(cv: ContextView, q: PlanView, oc: OpenView)
    requires
        q.links.len() > 0,
        q.links[0].to_id == oc.step_id,
        oc.as_literal() is Some,
        q.links[0].condition == oc.as_literal()->0,
    ensures
        settles(cv, q, oc),
{
    assert forall|s: spec_fn(Variable, usize) -> Object, facts: Set<(Predicate, Seq<Object>)>|
        is_possible(cv, q, s) && #[trigger] is_served(q, s, facts, oc.step_id) implies world_at(s, facts, oc.step_id).holds(oc.condition) by {
        assert(is_so(s, facts, q.links[0].condition, oc.step_id));
    }
}

pub proof fn lemma_absence(
    cv: ContextView,
    p: PlanView,
    s: spec_fn(Variable, usize) -> Object,
    facts: Set<(Predicate, Seq<Object>)>,
    es: Seq<EffectView>,
    atom: AtomView,
    id: usize,
    n: nat,
)
    requires
        is_simple_task(cv),
        sound(p.typing(cv), p.classes),
        n <= es.len(),
        forall|k: int| 0 <= k < es.len() ==> !(#[trigger] es[k]).literal.negative,
        absence(p.typing(cv), p.classes, es, atom, id, n) is Some,
    ensures
        is_plain(absence(p.typing(cv), p.classes, es, atom, id, n)->0),
        fact_free(absence(p.typing(cv), p.classes, es, atom, id, n)->0),
        is_possible(cv, p, s) && world_at(s, facts, INIT_ID).holds(absence(p.typing(cv), p.classes, es, atom, id, n)->0) ==> forall|k: int|
            0 <= k < n ==> !equal_atoms(s, atom, id, (#[trigger] es[k]).literal.atom, INIT_ID),
    decreases n,
{
    if n > 0 {
        let t = p.typing(cv);
        let w = world_at(s, facts, INIT_ID);
        lemma_absence(cv, p, s, facts, es, atom, id, (n - 1) as nat);
        let f = absence(t, p.classes, es, atom, id, (n - 1) as nat)->0;
        let l = es[n - 1].literal;
        let u = unifier(t, p.classes, l.atom, INIT_ID, atom, id);
        unifiers_are_equalities(t, p.classes, l.atom, INIT_ID, atom, id);
        lemma_some_parted(s, facts, INIT_ID, u, u.len());
        lemma_plain_joined(f, some_parted(u, u.len()));
        lemma_fact_free_joined(f, some_parted(u, u.len()));
        conjunction_is_exact(w, f, some_parted(u, u.len()));
        if is_possible(cv, p, s) && w.holds(absence(t, p.classes, es, atom, id, n)->0) {
            lemma_hierarchy(cv, p);
            if equal_atoms(s, atom, id, l.atom, INIT_ID) {
                lemma_swapped(s, atom, id, l.atom, INIT_ID);
                unifier_is_most_general(t, p.classes, l.atom, INIT_ID, atom, id, s);
            }
            assert forall|k: int| 0 <= k < n implies !equal_atoms(s, atom, id, (#[trigger] es[k]).literal.atom, INIT_ID) by {
                if k == n - 1 {
                    assert(es[k].literal == l);
                }
            }
        }
    }
}

/// Supporting a negative literal by its absence from the initial state keeps a plan
/// causal.
proof fn lemma_absence_causal(cv: ContextView, p: PlanView, oc: OpenView, q: PlanView)
    requires
        refines(cv, p, FlawView::OpenCondition(oc), q),
        oc.as_literal() is Some,
        oc.as_literal()->0.negative,
        absence_plan(cv, p, oc) == Some(q),
    ensures
        is_causal(cv, q),
{
    let flaw = FlawView::OpenCondition(oc);
    let t = p.typing(cv);
    assert(q.typing(cv) == t);
    let l = oc.as_literal()->0;
    let es = cv.init.effects;
    let f = absence(t, p.classes, es, l.atom, oc.step_id, es.len())->0;
    let start = Agenda { opens: removed(p.opens, oc), binds: seq![] };
    let a = with_goal(t, start, f, INIT_ID)->0;
    let link = q.links[0];
    lemma_refined(cv, p, flaw, q);
    let at = choose|i: int| 0 <= i < p.opens.len() && p.opens[i] == oc;
    assert(is_fair(p.opens[at]));
    lemma_fair_without(p.opens, oc);
    lemma_absence(cv, p, |v: Variable, i: usize| Object(0), Set::empty(), es, l.atom, oc.step_id, es.len());
    lemma_fair_front(t, start, f, INIT_ID, a);
    lemma_link_settles(cv, q, oc);
    lemma_leads(cv, p, flaw, q);
    assert(is_absent(cv, q, link)) by {
        assert forall|s: spec_fn(Variable, usize) -> Object, facts: Set<(Predicate, Seq<Object>)>, k: int|
            is_possible(cv, q, s) && #[trigger] is_served(q, s, facts, INIT_ID) && 0 <= k < cv.init.effects.len() implies !equal_atoms(
            s,
            link.condition.atom,
            link.to_id,
            (#[trigger] cv.init.effects[k]).literal.atom,
            INIT_ID,
        ) by {
            lemma_goal_holds(cv, p.classes, q, start, f, INIT_ID, a, s, facts);
            assert(is_possible(cv, p, s));
            lemma_absence(cv, p, s, facts, es, l.atom, oc.step_id, es.len());
        }
    }
    let listed = threats_to(t, q.classes, p.order, link, p.steps, p.steps.len());
    assert forall|u: UnsafeView| listed.contains(u) implies #[trigger] q.unsafes.contains(u) by {
        let i = choose|i: int| 0 <= i < listed.len() && listed[i] == u;
        assert(q.unsafes[i] == u);
    }
    lemma_listed_to(cv, q, link, p.steps, p.steps.len());
    lemma_plain_to(t, q.classes, p.order, link, p.steps, p.steps.len());
    lemma_plain_both(listed, p.unsafes);
    lemma_assembled(cv, p, flaw, q);
}

proof fn lemma_no_names(cv: ContextView, vars: crate::step::StepTypesView, r: Renaming, e: EffectView, id: usize, u: Seq<Binding>, n: nat)
    requires
        e.parameters.len() == 0,
        n <= u.len(),
    ensures
        names_for(cv, vars, r, e, id, u, n) == r,
    decreases n,
{
    if n > 0 {
        lemma_no_names(cv, vars, r, e, id, u, (n - 1) as nat);
    }
}

/// What a link from an effect without parameters takes: no names.
pub proof fn lemma_link_names(cv: ContextView, p: PlanView, steps: Seq<StepView>, x: StepView, e: EffectView, u: Seq<Binding>)
    requires
        e.parameters.len() == 0,
    ensures
        link_names(cv, p, steps, x, e, u) == (Renaming { subst: seq![], fresh: p.fresh }),
        named_all(e, x.id, seq![], u, u.len()) == u,
{
    let vars = types_at(cv, steps, p.fresh);
    let r = Renaming { subst: seq![], fresh: p.fresh };
    lemma_no_names(cv, vars, r, e, x.id, u, u.len());
    assert(named_all(e, x.id, seq![], u, u.len()) =~= u);
}

/// Whether a step can support an open literal of a plan: it is new, or one of the
/// plan's that may come before.
spec fn may_support(cv: ContextView, p: PlanView, x: StepView, is_new: bool, oc: OpenView) -> bool {
    &&& is_simple(x.action)
    &&& is_of_task(cv, x.action)
    &&& if is_new {
        x.id == p.num_steps + 1
    } else {
        p.steps.contains(x) && may_come_before(p.order, x.id as int, oc.step_id as int)
    }
}

proof fn lemma_linked_steps(cv: ContextView, p: PlanView, x: StepView, is_new: bool, oc: OpenView, q: PlanView)
    requires
        is_causal(cv, p),
        p.num_steps + 1 < usize::MAX,
        may_support(cv, p, x, is_new, oc),
        q.steps == (if is_new {
            seq![x] + p.steps
        } else {
            p.steps
        }),
    ensures
        has_own_steps(cv, q),
        q.steps == p.steps || (q.steps.len() > 0 && q.steps.drop_first() == p.steps),
        q.steps.contains(x),
{
    if is_new {
        assert(q.steps.drop_first() == p.steps);
        assert(q.steps[0] == x);
        assert forall|i: int| 0 < i < q.steps.len() implies #[trigger] q.steps[i] == p.steps[i - 1] by {}
        assert forall|i: int, j: int| 0 <= i < j < q.steps.len() implies (#[trigger] q.steps[i]).id != (#[trigger] q.steps[j]).id by {
            if i == 0 {
                assert(p.steps[j - 1].id <= p.num_steps || p.steps[j - 1].id == GOAL_ID);
            } else {
                assert(p.steps[i - 1].id != p.steps[j - 1].id);
            }
        }
    }
}

/// Whether a plan is one linked from another by an effect of a step, and what its
/// parts are.
spec fn is_linked(cv: ContextView, p: PlanView, x: StepView, is_new: bool, e: EffectView, oc: OpenView, a1: Agenda, a: Agenda, q: PlanView) -> bool {
    let t = q.typing(cv);
    let l = oc.as_literal()->0;
    let u = unifier(t, p.classes, e.literal.atom, x.id, l.atom, oc.step_id);
    &&& q.steps == (if is_new {
        seq![x] + p.steps
    } else {
        p.steps
    })
    &&& q.fresh == p.fresh
    &&& literals_unify(t, p.classes, seq![], e.literal, x.id, l, oc.step_id)
    &&& with_goal(t, Agenda { opens: removed(p.opens, oc), binds: u }, link_goal(e), x.id) == Some(a1)
    &&& if is_new {
        with_goal(t, a1, x.action.precondition, x.id) == Some(a)
    } else {
        a == a1
    }
    &&& bound_all(t, p.classes, a.binds) == Some(q.classes)
    &&& link_order(p.order, x.id, oc.step_id) == Some(q.order)
    &&& q.opens == a.opens
    &&& q.links.len() == p.links.len() + 1
    &&& q.links[0].from_id == x.id
    &&& q.links[0].to_id == oc.step_id
    &&& q.links[0].condition == l
    &&& ({
        let to_link = threats_to(t, q.classes, q.order, q.links[0], q.steps, q.steps.len()) + p.unsafes;
        q.unsafes == (if is_new {
            threats_by(t, q.classes, q.order, p.links, x, p.links.len()) + to_link
        } else {
            to_link
        })
    })
}

proof fn lemma_is_linked(cv: ContextView, p: PlanView, x: StepView, is_new: bool, k: int, oc: OpenView, q: PlanView) -> (as_: (Agenda, Agenda))
    requires
        is_simple(x.action),
        0 <= k < x.action.effects.len(),
        link_child(cv, p, x, is_new, k, oc) == Some(q),
    ensures
        is_linked(cv, p, x, is_new, x.action.effects[k], oc, as_.0, as_.1, q),
{
    let e = x.action.effects[k];
    let steps = if is_new {
        seq![x] + p.steps
    } else {
        p.steps
    };
    let t = cv.typing(types_at(cv, steps, p.fresh));
    let l = oc.as_literal()->0;
    let u = unifier(t, p.classes, e.literal.atom, x.id, l.atom, oc.step_id);
    lemma_link_names(cv, p, steps, x, e, u);
    lemma_plain_joined(e.condition, e.link_condition);
    put_nothing(link_goal(e));
    let a1 = with_goal(t, Agenda { opens: removed(p.opens, oc), binds: u }, link_goal(e), x.id)->0;
    let a = link_agenda(t, p, x, is_new, e, oc, u, seq![])->0;
    assert(linked(cv, p, x, is_new, e, oc, u) == Some(q));
    assert(q.typing(cv) == t);
    (a1, a)
}

/// Where a link's producer has what the plan has for it, the effect takes place and
/// gives the link's condition; and a new producer is prepared.
proof fn lemma_linked_gives(cv: ContextView, p: PlanView, x: StepView, is_new: bool, e: EffectView, oc: OpenView, a1: Agenda, a: Agenda, q: PlanView)
    requires
        is_linked(cv, p, x, is_new, e, oc, a1, a, q),
        is_simple(x.action),
        is_plain(e.condition),
        is_plain(e.link_condition),
        sound(q.typing(cv), p.classes),
    ensures
        gives(cv, q, q.links[0], x, e),
        is_new ==> is_prepared(cv, q, x),
{
    let t = q.typing(cv);
    let l = oc.as_literal()->0;
    let u = unifier(t, p.classes, e.literal.atom, x.id, l.atom, oc.step_id);
    let start = Agenda { opens: removed(p.opens, oc), binds: u };
    lemma_plain_joined(e.condition, e.link_condition);
    assert forall|s: spec_fn(Variable, usize) -> Object, facts: Set<(Predicate, Seq<Object>)>|
        is_possible(cv, q, s) && #[trigger] is_served(q, s, facts, x.id) implies {
        &&& world_at(s, facts, x.id).holds(e.condition)
        &&& world_at(s, facts, x.id).holds(e.link_condition)
        &&& equal_atoms(s, l.atom, oc.step_id, e.literal.atom, x.id)
        &&& is_new ==> world_at(s, facts, x.id).holds(x.action.precondition)
    } by {
        let w = world_at(s, facts, x.id);
        bindings_are_exact(t, p.classes, a.binds, q.classes, s);
        assert(opens_hold(a.opens, w, x.id));
        lemma_goal_served(t, s, facts, start, link_goal(e), x.id, a1);
        if is_new {
            lemma_goal_served(t, s, facts, a1, x.action.precondition, x.id, a);
            lemma_meets_front(s, a1.binds, a.binds);
            lemma_opens_back(a1.opens, a.opens, w, x.id);
        }
        lemma_meets_front(s, u, a1.binds);
        conjunction_is_exact(w, e.condition, e.link_condition);
        unifier_unifies(t, p.classes, e.literal.atom, x.id, l.atom, oc.step_id, s);
        lemma_swapped(s, e.literal.atom, x.id, l.atom, oc.step_id);
    }
}

proof fn lemma_linked_fair(cv: ContextView, p: PlanView, x: StepView, is_new: bool, e: EffectView, oc: OpenView, a1: Agenda, a: Agenda, q: PlanView)
    requires
        is_linked(cv, p, x, is_new, e, oc, a1, a, q),
        is_simple(x.action),
        is_plain(e.condition),
        is_plain(e.link_condition),
        are_fair(p.opens),
        x.id == INIT_ID ==> !is_new && e.condition is True && e.link_condition is True,
    ensures
        are_fair(q.opens),
{
    let t = q.typing(cv);
    let l = oc.as_literal()->0;
    let u = unifier(t, p.classes, e.literal.atom, x.id, l.atom, oc.step_id);
    let start = Agenda { opens: removed(p.opens, oc), binds: u };
    lemma_plain_joined(e.condition, e.link_condition);
    lemma_fair_without(p.opens, oc);
    lemma_fair_front(t, start, link_goal(e), x.id, a1);
    if is_new {
        lemma_fair_front(t, a1, x.action.precondition, x.id, a);
    }
}

proof fn lemma_linked_covered(cv: ContextView, p: PlanView, x: StepView, is_new: bool, e: EffectView, oc: OpenView, a1: Agenda, a: Agenda, q: PlanView)
    requires
        is_simple_task(cv),
        is_linked(cv, p, x, is_new, e, oc, a1, a, q),
        sound(q.typing(cv), q.classes),
    ensures
        forall|j: int| 0 <= j < q.steps.len() ==> are_covered(cv, q, q.links[0], #[trigger] q.steps[j]),
        is_new ==> forall|i: int| 0 <= i < p.links.len() ==> are_covered(cv, q, #[trigger] p.links[i], x),
{
    let t = q.typing(cv);
    let to = threats_to(t, q.classes, q.order, q.links[0], q.steps, q.steps.len());
    let by = threats_by(t, q.classes, q.order, p.links, x, p.links.len());
    assert forall|u: UnsafeView| to.contains(u) implies #[trigger] q.unsafes.contains(u) by {
        let i = choose|i: int| 0 <= i < to.len() && to[i] == u;
        if is_new {
            assert(q.unsafes[by.len() + i] == u);
        } else {
            assert(q.unsafes[i] == u);
        }
    }
    lemma_listed_to(cv, q, q.links[0], q.steps, q.steps.len());
    if is_new {
        assert forall|u: UnsafeView| by.contains(u) implies #[trigger] q.unsafes.contains(u) by {
            let i = choose|i: int| 0 <= i < by.len() && by[i] == u;
            assert(q.unsafes[i] == u);
        }
        lemma_listed_by(cv, q, p.links, x, p.links.len());
    }
}

/// Supporting a literal with an effect of a step keeps a plan causal.
proof fn lemma_link_causal(cv: ContextView, p: PlanView, x: StepView, is_new: bool, k: int, oc: OpenView, q: PlanView)
    requires
        refines(cv, p, FlawView::OpenCondition(oc), q),
        oc.as_literal() is Some,
        may_support(cv, p, x, is_new, oc),
        0 <= k < x.action.effects.len(),
        link_child(cv, p, x, is_new, k, oc) == Some(q),
    ensures
        is_causal(cv, q),
{
    let flaw = FlawView::OpenCondition(oc);
    let e = x.action.effects[k];
    let (a1, a) = lemma_is_linked(cv, p, x, is_new, k, oc, q);
    lemma_refined(cv, p, flaw, q);
    lemma_linked_steps(cv, p, x, is_new, oc, q);
    let at = choose|i: int| 0 <= i < p.opens.len() && p.opens[i] == oc;
    assert(is_fair(p.opens[at]));
    assert(oc.step_id != INIT_ID);
    if !is_new {
        let j = choose|j: int| 0 <= j < p.steps.len() && p.steps[j] == x;
        assert(x.id == INIT_ID ==> x.action == cv.init);
    }
    lemma_linked_fair(cv, p, x, is_new, e, oc, a1, a, q);
    if x.id != INIT_ID {
        lemma_ordered(p.order, x.id as int, oc.step_id as int, q.order);
    }
    lemma_link_settles(cv, q, oc);
    lemma_leads(cv, p, flaw, q);
    lemma_linked_gives(cv, p, x, is_new, e, oc, a1, a, q);
    let j = choose|j: int| 0 <= j < q.steps.len() && q.steps[j] == x;
    assert(gives(cv, q, q.links[0], q.steps[j], q.steps[j].action.effects[k]));
    lemma_linked_covered(cv, p, x, is_new, e, oc, a1, a, q);
    let t = q.typing(cv);
    let to = threats_to(t, q.classes, q.order, q.links[0], q.steps, q.steps.len());
    let by = threats_by(t, q.classes, q.order, p.links, x, p.links.len());
    lemma_plain_to(t, q.classes, q.order, q.links[0], q.steps, q.steps.len());
    lemma_plain_by(t, q.classes, q.order, p.links, x, p.links.len());
    lemma_plain_both(to, p.unsafes);
    lemma_plain_both(by, to + p.unsafes);
    lemma_assembled(cv, p, flaw, q);
}

proof fn lemma_effects_for(a: StepActionView, l: LiteralView, n: nat)
    requires
        n <= a.effects.len(),
    ensures
        forall|m: int|
            0 <= m < effects_for(a, l, n).len() ==> (#[trigger] effects_for(a, l, n)[m]).0 == a && 0 <= effects_for(a, l, n)[m].1 < n,
    decreases n,
{
    if n > 0 {
        lemma_effects_for(a, l, (n - 1) as nat);
    }
}

proof fn lemma_effects_among(actions: Seq<StepActionView>, l: LiteralView, n: nat)
    requires
        n <= actions.len(),
    ensures
        forall|m: int|
            0 <= m < effects_among(actions, l, n).len() ==> actions.contains((#[trigger] effects_among(actions, l, n)[m]).0) && 0 <= effects_among(
                actions,
                l,
                n,
            )[m].1 < effects_among(actions, l, n)[m].0.effects.len(),
    decreases n,
{
    if n > 0 {
        let a = actions[n - 1];
        let rest = effects_among(actions, l, (n - 1) as nat);
        let new = effects_for(a, l, a.effects.len());
        let all = effects_among(actions, l, n);
        lemma_effects_among(actions, l, (n - 1) as nat);
        lemma_effects_for(a, l, a.effects.len());
        assert forall|m: int| 0 <= m < all.len() implies actions.contains((#[trigger] all[m]).0) && 0 <= all[m].1 < all[m].0.effects.len() by {
            if m < rest.len() {
                assert(all[m] == rest[m]);
            } else {
                assert(all[m] == new[m - rest.len()]);
            }
        }
    }
}

proof fn lemma_achievers(cv: ContextView, l: LiteralView)
    requires
        is_simple_task(cv),
    ensures
        forall|m: int|
            0 <= m < cv.achievers(l).len() ==> is_simple((#[trigger] cv.achievers(l)[m]).0) && is_of_task(cv, cv.achievers(l)[m].0) && 0 <= cv.achievers(l)[m].1 < cv.achievers(
                l,
            )[m].0.effects.len(),
{
    let a = effects_for(cv.init, l, cv.init.effects.len());
    let b = effects_among(cv.actions, l, cv.actions.len());
    lemma_effects_for(cv.init, l, cv.init.effects.len());
    lemma_effects_among(cv.actions, l, cv.actions.len());
    assert forall|m: int| 0 <= m < (a + b).len() implies is_simple((#[trigger] (a + b)[m]).0) && is_of_task(cv, (a + b)[m].0) && 0 <= (a + b)[m].1
        < (a + b)[m].0.effects.len() by {
        if m < a.len() {
            assert((a + b)[m] == a[m]);
        } else {
            assert((a + b)[m] == b[m - a.len()]);
        }
    }
}

pub proof fn lemma_of_appended(plans: Seq<PlanView>, child: Option<PlanView>, q: PlanView)
    requires
        appended(plans, child).contains(q),
    ensures
        plans.contains(q) || child == Some(q),
{
    let i = choose|i: int| 0 <= i < appended(plans, child).len() && appended(plans, child)[i] == q;
    if i < plans.len() {
        assert(plans[i] == q);
    }
}

pub proof fn lemma_of_joined(a: Seq<PlanView>, b: Seq<PlanView>, q: PlanView)
    requires
        (a + b).contains(q),
    ensures
        a.contains(q) || b.contains(q),
{
    let i = choose|i: int| 0 <= i < (a + b).len() && (a + b)[i] == q;
    if i < a.len() {
        assert(a[i] == q);
    } else {
        assert(b[i - a.len()] == q);
    }
}

pub proof fn lemma_of_new_steps(cv: ContextView, p: PlanView, oc: OpenView, achievers: Seq<(StepActionView, int)>, n: nat, q: PlanView) -> (m: int)
    requires
        new_step_plans(cv, p, oc, achievers, n).contains(q),
    ensures
        0 <= m < n,
        link_child(cv, p, StepView { id: (p.num_steps + 1) as usize, action: achievers[m].0 }, true, achievers[m].1, oc) == Some(q),
    decreases n,
{
    let rest = new_step_plans(cv, p, oc, achievers, (n - 1) as nat);
    let (a, k) = achievers[n - 1];
    let child = link_child(cv, p, StepView { id: (p.num_steps + 1) as usize, action: a }, true, k, oc);
    if a.is_synthetic() {
        lemma_of_new_steps(cv, p, oc, achievers, (n - 1) as nat, q)
    } else {
        lemma_of_appended(rest, child, q);
        if rest.contains(q) {
            lemma_of_new_steps(cv, p, oc, achievers, (n - 1) as nat, q)
        } else {
            n - 1
        }
    }
}

proof fn lemma_of_reuse_by(cv: ContextView, p: PlanView, oc: OpenView, x: StepView, achievers: Seq<(StepActionView, int)>, n: nat, q: PlanView) -> (m: int)
    requires
        reuse_by_step(cv, p, oc, x, achievers, n).contains(q),
    ensures
        0 <= m < n,
        may_come_before(p.order, x.id as int, oc.step_id as int),
        achievers[m].1 < x.action.effects.len(),
        link_child(cv, p, x, false, achievers[m].1, oc) == Some(q),
    decreases n,
{
    let rest = reuse_by_step(cv, p, oc, x, achievers, (n - 1) as nat);
    let (a, k) = achievers[n - 1];
    if a.id == x.action.id && may_come_before(p.order, x.id as int, oc.step_id as int) && k < x.action.effects.len() {
        lemma_of_appended(rest, link_child(cv, p, x, false, k, oc), q);
        if rest.contains(q) {
            lemma_of_reuse_by(cv, p, oc, x, achievers, (n - 1) as nat, q)
        } else {
            n - 1
        }
    } else {
        lemma_of_reuse_by(cv, p, oc, x, achievers, (n - 1) as nat, q)
    }
}

pub proof fn lemma_of_reuse(cv: ContextView, p: PlanView, oc: OpenView, achievers: Seq<(StepActionView, int)>, n: nat, q: PlanView) -> (jm: (int, int))
    requires
        n <= p.steps.len(),
        reuse_plans(cv, p, oc, achievers, n).contains(q),
    ensures
        0 <= jm.0 < n,
        0 <= jm.1 < achievers.len(),
        may_come_before(p.order, p.steps[jm.0].id as int, oc.step_id as int),
        achievers[jm.1].1 < p.steps[jm.0].action.effects.len(),
        link_child(cv, p, p.steps[jm.0], false, achievers[jm.1].1, oc) == Some(q),
    decreases n,
{
    let rest = reuse_plans(cv, p, oc, achievers, (n - 1) as nat);
    let new = reuse_by_step(cv, p, oc, p.steps[n - 1], achievers, achievers.len());
    lemma_of_joined(rest, new, q);
    if rest.contains(q) {
        lemma_of_reuse(cv, p, oc, achievers, (n - 1) as nat, q)
    } else {
        let m = lemma_of_reuse_by(cv, p, oc, p.steps[n - 1], achievers, achievers.len(), q);
        (n - 1, m)
    }
}

proof fn lemma_of_disjuncts(cv: ContextView, p: PlanView, oc: OpenView, ds: Seq<FormulaView>, n: nat, q: PlanView) -> (k: int)
    requires
        disjunct_plans(cv, p, oc, ds, n).contains(q),
    ensures
        0 <= k < n,
        goal_plan(cv, p, removed(p.opens, oc), ds[k], oc.step_id) == Some(q),
    decreases n,
{
    let rest = disjunct_plans(cv, p, oc, ds, (n - 1) as nat);
    lemma_of_appended(rest, goal_plan(cv, p, removed(p.opens, oc), ds[n - 1], oc.step_id), q);
    if rest.contains(q) {
        lemma_of_disjuncts(cv, p, oc, ds, (n - 1) as nat, q)
    } else {
        n - 1
    }
}

/// No interference goes unnoticed. In the first plan, and in every refinement of such
/// a plan by one of its flaws, each effect of a step that may come between the steps
/// of a link, and that some objects for the variables make the contrary of the
/// link's condition, is listed as a threat; or else the plan sees to it that the
/// effect does not take place there. The producer of each link comes before its
/// consumer and gives what the link says, and each step has its precondition, where
/// the open conditions hold.
pub proof fn plans_stay_causal(cv: ContextView, p: PlanView, flaw: FlawView)
    requires
        is_simple_task(cv),
    ensures
        first_plan(cv) matches Some(q) ==> is_causal(cv, q),
        is_causal(cv, p) && p.num_steps + 1 < usize::MAX && is_flaw_of(p, flaw) ==> forall|i: int|
            0 <= i < flaw_plans(cv, p, flaw).len() ==> is_causal(cv, #[trigger] flaw_plans(cv, p, flaw)[i]),
{
    lemma_first_causal(cv);
    if is_causal(cv, p) && p.num_steps + 1 < usize::MAX && is_flaw_of(p, flaw) {
        let plans = flaw_plans(cv, p, flaw);
        assert forall|i: int| 0 <= i < plans.len() implies is_causal(cv, #[trigger] plans[i]) by {
            let q = plans[i];
            assert(plans.contains(q));
            match flaw {
                FlawView::Unsafe(u) => {
                    lemma_unsafe_causal(cv, p, u, q);
                },
                FlawView::OpenCondition(oc) => {
                    lemma_open_causal(cv, p, oc, q);
                },
            }
        }
    }
}

proof fn lemma_unsafe_causal(cv: ContextView, p: PlanView, u: UnsafeView, q: PlanView)
    requires
        refines(cv, p, FlawView::Unsafe(u), q),
    ensures
        is_causal(cv, q),
{
    let at = choose|i: int| 0 <= i < p.unsafes.len() && p.unsafes[i] == u;
    assert(p.unsafes[at].effect.parameters.len() == 0);
    if is_threat(cv, p, u) {
        let one = appended(seq![], separated_plan(cv, p, u));
        let later = ordered_plan(p, u, u.link.to_id, u.step_id);
        let sooner = ordered_plan(p, u, u.step_id, u.link.from_id);
        lemma_of_appended(appended(one, later), sooner, q);
        if sooner == Some(q) {
            lemma_ordered_causal(cv, p, u, u.step_id, u.link.from_id, q);
        } else {
            lemma_of_appended(one, later, q);
            if later == Some(q) {
                lemma_ordered_causal(cv, p, u, u.link.to_id, u.step_id, q);
            } else {
                lemma_of_appended(seq![], separated_plan(cv, p, u), q);
                lemma_separated_causal(cv, p, u, q);
            }
        }
    } else {
        assert(q == (PlanView { unsafes: removed(p.unsafes, u), ..p }));
        lemma_dropped_causal(cv, p, u, q);
    }
}

proof fn lemma_open_causal(cv: ContextView, p: PlanView, oc: OpenView, q: PlanView)
    requires
        refines(cv, p, FlawView::OpenCondition(oc), q),
    ensures
        is_causal(cv, q),
{
    let at = choose|i: int| 0 <= i < p.opens.len() && p.opens[i] == oc;
    assert(is_fair(p.opens[at]));
    match oc.condition {
        FormulaView::Disjunction(ds) => {
            let k = lemma_of_disjuncts(cv, p, oc, ds, ds.len(), q);
            lemma_disjunct_causal(cv, p, oc, ds, k, q);
        },
        _ => {
            let l = oc.as_literal()->0;
            let achievers = cv.achievers(l);
            let a = new_step_plans(cv, p, oc, achievers, achievers.len());
            let b = reuse_plans(cv, p, oc, achievers, p.steps.len());
            lemma_achievers(cv, l);
            if l.negative {
                lemma_of_appended(a + b, absence_plan(cv, p, oc), q);
            }
            if l.negative && absence_plan(cv, p, oc) == Some(q) {
                lemma_absence_causal(cv, p, oc, q);
            } else {
                lemma_of_joined(a, b, q);
                if a.contains(q) {
                    let m = lemma_of_new_steps(cv, p, oc, achievers, achievers.len(), q);
                    let x = StepView { id: (p.num_steps + 1) as usize, action: achievers[m].0 };
                    lemma_link_causal(cv, p, x, true, achievers[m].1, oc, q);
                } else {
                    let (j, m) = lemma_of_reuse(cv, p, oc, achievers, p.steps.len(), q);
                    assert(p.steps.contains(p.steps[j]));
                    lemma_link_causal(cv, p, p.steps[j], false, achievers[m].1, oc, q);
                }
            }
        },
    }
}

proof fn lemma_first_causal(cv: ContextView)
    requires
        is_simple_task(cv),
    ensures
        first_plan(cv) matches Some(q) ==> is_causal(cv, q),
{
    if let Some(q) = first_plan(cv) {
        let f = cv.goal.precondition;
        let t = q.typing(cv);
        let start = Agenda { opens: seq![], binds: seq![] };
        let a = with_goal(t, start, f, GOAL_ID)->0;
        lemma_hierarchy(cv, q);
        bindings_of_plans_arise(cv, q, FlawView::OpenCondition(arbitrary()));
        lemma_fair_front(t, start, f, GOAL_ID, a);
        assert(q.steps[0].id == INIT_ID && q.steps[1].id == GOAL_ID);
        assert forall|j: int| 0 <= j < q.steps.len() implies is_prepared(cv, q, #[trigger] q.steps[j]) by {
            if j == 1 {
                assert forall|s: spec_fn(Variable, usize) -> Object, facts: Set<(Predicate, Seq<Object>)>|
                    is_possible(cv, q, s) && #[trigger] is_served(q, s, facts, GOAL_ID) implies world_at(s, facts, GOAL_ID).holds(f) by {
                    lemma_goal_holds(cv, Seq::empty(), q, start, f, GOAL_ID, a, s, facts);
                }
            }
        }
    }
}

/// Whether a plan is a refinement of another by one of its flaws, with room to number
/// another step.
pub open spec fn is_refinement(cv: ContextView, p: PlanView, flaw: FlawView, q: PlanView) -> bool {
    p.num_steps + 1 < usize::MAX && is_flaw_of(p, flaw) && flaw_plans(cv, p, flaw).contains(q)
}

/// Whether plans come from the first one, each a refinement of the one before by one
/// of its flaws.
pub open spec fn is_derivation(cv: ContextView, plans: Seq<PlanView>, flaws: Seq<FlawView>) -> bool {
    &&& plans.len() == flaws.len() + 1
    &&& first_plan(cv) == Some(plans[0])
    &&& forall|i: int| 0 <= i < flaws.len() ==> is_refinement(cv, plans[i], #[trigger] flaws[i], plans[i + 1])
}

/// Every plan that a search reaches is causal: no interference goes unnoticed in it.
pub proof fn derived_plans_are_causal(cv: ContextView, plans: Seq<PlanView>, flaws: Seq<FlawView>)
    requires
        is_simple_task(cv),
        is_derivation(cv, plans, flaws),
    ensures
        is_causal(cv, plans.last()),
    decreases plans.len(),
{
    if flaws.len() == 0 {
        plans_stay_causal(cv, plans[0], FlawView::OpenCondition(arbitrary()));
    } else {
        let n = flaws.len() - 1;
        let before = plans.drop_last();
        let first = flaws.drop_last();
        assert forall|i: int| 0 <= i < first.len() implies is_refinement(cv, before[i], #[trigger] first[i], before[i + 1]) by {
            assert(first[i] == flaws[i]);
            assert(before[i] == plans[i]);
            assert(before[i + 1] == plans[i + 1]);
        }
        assert(before[0] == plans[0]);
        derived_plans_are_causal(cv, before, first);
        let p = plans[n];
        assert(before.last() == p);
        assert(is_refinement(cv, p, flaws[n], plans[n + 1]));
        plans_stay_causal(cv, p, flaws[n]);
        let children = flaw_plans(cv, p, flaws[n]);
        let i = choose|i: int| 0 <= i < children.len() && children[i] == plans[n + 1];
        assert(is_causal(cv, children[i]));
    }
}

} // verus!
