//! Executing complete plans.
use vstd::prelude::*;

use crate::bindings_laws::{equal_atoms, value};
use crate::causal_laws::{
    are_covered, derived_plans_are_causal, gives, is_derivation, is_of_task, is_plain, is_absent, is_causal, is_covered, is_given, is_possible,
    is_prepared, is_served, is_simple_task, is_so, world_at,
};
use crate::effect::{clear_of, EffectView};
use crate::flaws::{FlawView, LinkView};
use crate::formula::{
    all_separators, apart, both, either, guarded_separators, negated, separated, AtomView, FormulaView, LiteralView,
};
use crate::formula_laws::{
    conjoined_is_exact, conjunction_is_exact, disjunction_is_exact, negation_is_exact, separation_is_exact, World,
};
use crate::lower_model::all_strengthened;
use crate::orderings::comes_before;
use crate::plan::{GOAL_ID, INIT_ID};
use crate::plan_model::PlanView;
use crate::predicates::Predicate;
use crate::search::ContextView;
use crate::step::{StepActionView, StepView};
use crate::terms::{Object, Variable};

verus! {

/// What an effect of a step says, where the variables stand for what `s` says.
pub open spec fn said(s: spec_fn(Variable, usize) -> Object, x: StepView, e: EffectView) -> (Predicate, Seq<Object>) {
    world_at(s, Set::empty(), x.id).fact(e.literal.atom)
}

/// Whether an effect of a step that takes place makes a fact true, or false.
pub open spec fn makes(
    s: spec_fn(Variable, usize) -> Object,
    facts: Set<(Predicate, Seq<Object>)>,
    x: StepView,
    f: (Predicate, Seq<Object>),
    negative: bool,
) -> bool {
    exists|k: int|
        0 <= k < x.action.effects.len() && (#[trigger] x.action.effects[k]).literal.negative == negative && said(s, x, x.action.effects[k]) == f
            && world_at(s, facts, x.id).holds(x.action.effects[k].condition)
}

/// The facts after a step: those that it makes true, and those before that it does
/// not make false.
pub open spec fn after(s: spec_fn(Variable, usize) -> Object, facts: Set<(Predicate, Seq<Object>)>, x: StepView) -> Set<(Predicate, Seq<Object>)> {
    Set::new(|f: (Predicate, Seq<Object>)| makes(s, facts, x, f, false) || (facts.contains(f) && !makes(s, facts, x, f, true)))
}

/// The facts before the step in place `n` of a list, from none at all.
pub open spec fn facts_before(s: spec_fn(Variable, usize) -> Object, list: Seq<StepView>, n: nat) -> Set<(Predicate, Seq<Object>)>
    decreases n,
{
    if n == 0 {
        Set::empty()
    } else {
        after(s, facts_before(s, list, (n - 1) as nat), list[n - 1])
    }
}

/// Whether a list holds the steps of a plan, each once, in an order that the plan
/// allows, from the initial to the goal step.
pub open spec fn is_linearization(p: PlanView, list: Seq<StepView>) -> bool {
    &&& list.len() > 0
    &&& list[0].id == INIT_ID
    &&& list.last().id == GOAL_ID
    &&& forall|i: int| 0 <= i < list.len() ==> p.steps.contains(#[trigger] list[i])
    &&& forall|x: StepView| #[trigger] p.steps.contains(x) ==> list.contains(x)
    &&& forall|i: int, j: int|
        0 <= i < j < list.len() ==> (#[trigger] list[i]).id != (#[trigger] list[j]).id && !p.order.contains((list[j].id as int, list[i].id as int))
}

/// Whether the link conditions of an action's effects do their work: an effect whose
/// link condition is false changes nothing where the action can take place, and where
/// that of a deletion holds, the action does not add what is deleted.
pub open spec fn is_tidy(a: StepActionView) -> bool {
    forall|s: spec_fn(Variable, usize) -> Object, facts: Set<(Predicate, Seq<Object>)>, id: usize, k: int|
        0 <= k < a.effects.len() && world_at(s, facts, id).holds(a.precondition) && #[trigger] world_at(s, facts, id).holds(a.effects[k].condition)
            ==> keeps_tidy(s, facts, StepView { id, action: a }, a.effects[k])
}

/// Whether an effect that takes place changes nothing if its link condition is
/// false, and a deletion whose link condition holds meets no addition.
pub open spec fn keeps_tidy(s: spec_fn(Variable, usize) -> Object, facts: Set<(Predicate, Seq<Object>)>, x: StepView, e: EffectView) -> bool {
    let f = said(s, x, e);
    &&& e.link_condition is False && e.literal.negative ==> !facts.contains(f) || makes(s, facts, x, f, false)
    &&& e.link_condition is False && !e.literal.negative ==> facts.contains(f)
    &&& world_at(s, facts, x.id).holds(e.link_condition) && e.literal.negative ==> !makes(s, facts, x, f, false)
}

proof fn lemma_same_fact(s: spec_fn(Variable, usize) -> Object, a: AtomView, i: usize, b: AtomView, j: usize)
    ensures
        equal_atoms(s, a, i, b, j) <==> world_at(s, Set::empty(), i).fact(a) == world_at(s, Set::empty(), j).fact(b),
{
    let v = world_at(s, Set::empty(), i);
    let w = world_at(s, Set::empty(), j);
    assert forall|k: int| 0 <= k < a.terms.len() implies #[trigger] v.fact(a).1[k] == value(s, a.terms[k], i) by {}
    assert forall|k: int| 0 <= k < b.terms.len() implies #[trigger] w.fact(b).1[k] == value(s, b.terms[k], j) by {}
    if equal_atoms(s, a, i, b, j) {
        assert forall|k: int| 0 <= k < a.terms.len() implies v.fact(a).1[k] == w.fact(b).1[k] by {
            assert(value(s, a.terms[k], i) == value(s, b.terms[k], j));
        }
        assert(v.fact(a).1 =~= w.fact(b).1);
    }
    if v.fact(a) == w.fact(b) {
        assert(v.fact(a).1.len() == w.fact(b).1.len());
        assert forall|k: int| 0 <= k < a.terms.len() implies value(s, #[trigger] a.terms[k], i) == value(s, b.terms[k], j) by {
            assert(v.fact(a).1[k] == w.fact(b).1[k]);
        }
    }
}

proof fn lemma_fact_of(s: spec_fn(Variable, usize) -> Object, facts: Set<(Predicate, Seq<Object>)>, a: AtomView, i: usize)
    ensures
        world_at(s, facts, i).fact(a) == world_at(s, Set::empty(), i).fact(a),
{
    assert(world_at(s, facts, i).fact(a).1 =~= world_at(s, Set::empty(), i).fact(a).1);
}

proof fn lemma_in_order(p: PlanView, list: Seq<StepView>, a: int, b: int)
    requires
        is_linearization(p, list),
        0 <= a < list.len(),
        0 <= b < list.len(),
        comes_before(p.order, list[a].id as int, list[b].id as int),
    ensures
        a < b,
{
    if b < a {
        assert(list[b].id != list[a].id);
        assert(list[b].id != INIT_ID || b == 0);
        if list[a].id == INIT_ID {
            assert(list[0].id != list[a].id);
        } else if list[b].id == GOAL_ID {
            assert(list[b].id != list[list.len() - 1].id);
        }
    }
}

/// A step between those of a link leaves the link's condition as it is.
proof fn lemma_step_keeps(
    cv: ContextView,
    p: PlanView,
    s: spec_fn(Variable, usize) -> Object,
    list: Seq<StepView>,
    l: LinkView,
    a: int,
    k: int,
    m: int,
)
    requires
        is_causal(cv, p),
        p.is_complete(),
        is_possible(cv, p, s),
        is_linearization(p, list),
        p.links.contains(l),
        0 <= a < m < k < list.len(),
        list[a].id == l.from_id,
        list[k].id == l.to_id,
        is_tidy(list[m].action),
        is_served(p, s, facts_before(s, list, m as nat), list[m].id),
        l.condition.negative != facts_before(s, list, m as nat).contains(world_at(s, Set::empty(), l.to_id).fact(l.condition.atom)),
    ensures
        l.condition.negative != facts_before(s, list, (m + 1) as nat).contains(world_at(s, Set::empty(), l.to_id).fact(l.condition.atom)),
{
    let y = list[m];
    let facts = facts_before(s, list, m as nat);
    let f = world_at(s, Set::empty(), l.to_id).fact(l.condition.atom);
    assert(facts_before(s, list, (m + 1) as nat) == after(s, facts, y));
    assert(list[a].id != list[m].id);
    assert(list[m].id != list[k].id);
    let j = choose|j: int| 0 <= j < p.steps.len() && p.steps[j] == y;
    let i = choose|i: int| 0 <= i < p.links.len() && p.links[i] == l;
    assert(is_prepared(cv, p, p.steps[j]));
    assert(world_at(s, facts, y.id).holds(y.action.precondition));
    assert(are_covered(cv, p, p.links[i], p.steps[j]));
    let contrary = !l.condition.negative;
    if makes(s, facts, y, f, contrary) {
        let n = choose|n: int|
            0 <= n < y.action.effects.len() && (#[trigger] y.action.effects[n]).literal.negative == contrary && said(s, y, y.action.effects[n]) == f
                && world_at(s, facts, y.id).holds(y.action.effects[n].condition);
        let e = y.action.effects[n];
        lemma_same_fact(s, l.condition.atom, l.to_id, e.literal.atom, y.id);
        assert(is_covered(cv, p, l, y, e));
        if comes_before(p.order, y.id as int, l.from_id as int) {
            lemma_in_order(p, list, m, a);
        }
        if comes_before(p.order, l.to_id as int, y.id as int) {
            lemma_in_order(p, list, k, m);
        }
        assert(e.link_condition is False);
        assert(keeps_tidy(s, facts, StepView { id: y.id, action: y.action }, e));
        assert(y == (StepView { id: y.id, action: y.action }));
    }
}

proof fn lemma_kept(
    cv: ContextView,
    p: PlanView,
    s: spec_fn(Variable, usize) -> Object,
    list: Seq<StepView>,
    l: LinkView,
    a: int,
    k: int,
    m: int,
)
    requires
        is_causal(cv, p),
        p.is_complete(),
        is_possible(cv, p, s),
        is_linearization(p, list),
        p.links.contains(l),
        0 <= a < m <= k < list.len(),
        list[a].id == l.from_id,
        list[k].id == l.to_id,
        forall|i: int| 0 <= i < k ==> is_tidy((#[trigger] list[i]).action),
        forall|i: int| 0 <= i < k ==> is_served(p, s, facts_before(s, list, i as nat), (#[trigger] list[i]).id),
        l.condition.negative != facts_before(s, list, (a + 1) as nat).contains(world_at(s, Set::empty(), l.to_id).fact(l.condition.atom)),
    ensures
        l.condition.negative != facts_before(s, list, m as nat).contains(world_at(s, Set::empty(), l.to_id).fact(l.condition.atom)),
    decreases m,
{
    if m > a + 1 {
        lemma_kept(cv, p, s, list, l, a, k, m - 1);
        assert(is_tidy(list[m - 1].action));
        assert(is_served(p, s, facts_before(s, list, (m - 1) as nat), list[m - 1].id));
        lemma_step_keeps(cv, p, s, list, l, a, k, m - 1);
    }
}

/// The producer of a link makes its condition true.
proof fn lemma_produced(cv: ContextView, p: PlanView, s: spec_fn(Variable, usize) -> Object, list: Seq<StepView>, l: LinkView, k: int) -> (a: int)
    requires
        is_simple_task(cv),
        is_causal(cv, p),
        is_possible(cv, p, s),
        is_linearization(p, list),
        p.links.contains(l),
        0 <= k < list.len(),
        list[k].id == l.to_id,
        forall|i: int| 0 <= i < k ==> is_tidy((#[trigger] list[i]).action),
        forall|i: int| 0 <= i < k ==> is_served(p, s, facts_before(s, list, i as nat), (#[trigger] list[i]).id),
    ensures
        0 <= a < k,
        list[a].id == l.from_id,
        l.condition.negative != facts_before(s, list, (a + 1) as nat).contains(world_at(s, Set::empty(), l.to_id).fact(l.condition.atom)),
{
    let f = world_at(s, Set::empty(), l.to_id).fact(l.condition.atom);
    let i = choose|i: int| 0 <= i < p.links.len() && p.links[i] == l;
    assert(is_given(cv, p, p.links[i]));
    assert(comes_before(p.order, p.links[i].from_id as int, p.links[i].to_id as int));
    if exists|j: int, n: int|
        0 <= j < p.steps.len() && 0 <= n < p.steps[j].action.effects.len() && gives(
            cv,
            p,
            l,
            #[trigger] p.steps[j],
            #[trigger] p.steps[j].action.effects[n],
        ) {
        let (j, n) = choose|j: int, n: int|
            0 <= j < p.steps.len() && 0 <= n < p.steps[j].action.effects.len() && gives(
                cv,
                p,
                l,
                #[trigger] p.steps[j],
                #[trigger] p.steps[j].action.effects[n],
            );
        let x = p.steps[j];
        let e = x.action.effects[n];
        assert(p.steps.contains(x));
        let a = choose|a: int| 0 <= a < list.len() && list[a] == x;
        lemma_in_order(p, list, a, k);
        let facts = facts_before(s, list, a as nat);
        assert(is_served(p, s, facts, list[a].id));
        assert(is_prepared(cv, p, p.steps[j]));
        lemma_same_fact(s, l.condition.atom, l.to_id, e.literal.atom, x.id);
        assert(said(s, x, e) == f);
        assert(makes(s, facts, x, f, e.literal.negative));
        assert(facts_before(s, list, (a + 1) as nat) == after(s, facts, x));
        assert(is_tidy(list[a].action));
        assert(world_at(s, facts, x.id).holds(x.action.precondition));
        assert(world_at(s, facts, x.id).holds(e.condition));
        assert(keeps_tidy(s, facts, StepView { id: x.id, action: x.action }, e));
        assert(x == (StepView { id: x.id, action: x.action }));
        a
    } else {
        assert(is_absent(cv, p, l));
        let x = list[0];
        lemma_in_order(p, list, 0, k);
        let facts = facts_before(s, list, 0);
        assert(is_served(p, s, facts, list[0].id));
        assert(facts_before(s, list, 1) == after(s, facts, x));
        let j = choose|j: int| 0 <= j < p.steps.len() && p.steps[j] == x;
        assert(p.steps[j].id == INIT_ID ==> p.steps[j].action == cv.init);
        if makes(s, facts, x, f, false) {
            let n = choose|n: int|
                0 <= n < x.action.effects.len() && (#[trigger] x.action.effects[n]).literal.negative == false && said(s, x, x.action.effects[n]) == f
                    && world_at(s, facts, x.id).holds(x.action.effects[n].condition);
            lemma_same_fact(s, l.condition.atom, l.to_id, cv.init.effects[n].literal.atom, INIT_ID);
        }
        0
    }
}

proof fn lemma_served(cv: ContextView, p: PlanView, s: spec_fn(Variable, usize) -> Object, list: Seq<StepView>, n: nat)
    requires
        is_simple_task(cv),
        is_causal(cv, p),
        p.is_complete(),
        is_possible(cv, p, s),
        is_linearization(p, list),
        n <= list.len(),
        forall|i: int| 0 <= i < list.len() ==> is_tidy((#[trigger] list[i]).action),
    ensures
        forall|i: int| 0 <= i < n ==> is_served(p, s, facts_before(s, list, i as nat), (#[trigger] list[i]).id),
    decreases n,
{
    if n > 0 {
        let k = n - 1;
        lemma_served(cv, p, s, list, k as nat);
        let facts = facts_before(s, list, k as nat);
        assert forall|i: int| 0 <= i < p.links.len() && (#[trigger] p.links[i]).to_id == list[k].id implies is_so(
            s,
            facts,
            p.links[i].condition,
            list[k].id,
        ) by {
            let l = p.links[i];
            assert(p.links.contains(l));
            let a = lemma_produced(cv, p, s, list, l, k);
            lemma_kept(cv, p, s, list, l, a, k, k);
            lemma_fact_of(s, facts, l.condition.atom, l.to_id);
        }
        assert(is_served(p, s, facts, list[k].id));
        assert forall|i: int| 0 <= i < n implies is_served(p, s, facts_before(s, list, i as nat), (#[trigger] list[i]).id) by {
            if i == k {
                assert(list[i] == list[k]);
            }
        }
    }
}

proof fn lemma_init_tidy(cv: ContextView)
    requires
        is_simple_task(cv),
    ensures
        is_tidy(cv.init),
{
    let a = cv.init;
    assert forall|s: spec_fn(Variable, usize) -> Object, facts: Set<(Predicate, Seq<Object>)>, id: usize, k: int|
        0 <= k < a.effects.len() && world_at(s, facts, id).holds(a.precondition) && #[trigger] world_at(s, facts, id).holds(a.effects[k].condition)
            implies keeps_tidy(s, facts, StepView { id, action: a }, a.effects[k]) by {
        assert(a.effects[k].link_condition is True);
    }
}

/// Every linearization of a complete plan executes: from no facts the initial step
/// makes those of the initial state, each further step has its precondition when its
/// turn comes, and in the end so has the goal step. This is so whatever objects of
/// their types the variables stand for, as long as the bindings of the plan hold.
pub proof fn complete_plans_execute(cv: ContextView, p: PlanView, s: spec_fn(Variable, usize) -> Object, list: Seq<StepView>)
    requires
        is_simple_task(cv),
        is_causal(cv, p),
        p.is_complete(),
        is_possible(cv, p, s),
        is_linearization(p, list),
        forall|i: int| 0 <= i < cv.actions.len() ==> is_tidy(#[trigger] cv.actions[i]),
    ensures
        forall|i: int|
            0 <= i < list.len() ==> world_at(s, facts_before(s, list, i as nat), (#[trigger] list[i]).id).holds(list[i].action.precondition),
        world_at(s, facts_before(s, list, (list.len() - 1) as nat), GOAL_ID).holds(cv.goal.precondition),
{
    assert forall|i: int| 0 <= i < list.len() implies is_tidy((#[trigger] list[i]).action) by {
        let j = choose|j: int| 0 <= j < p.steps.len() && p.steps[j] == list[i];
        assert(is_of_task(cv, p.steps[j].action));
        let a = list[i].action;
        if a == cv.init {
            lemma_init_tidy(cv);
        } else if a != cv.goal {
            let k = choose|k: int| 0 <= k < cv.actions.len() && cv.actions[k] == a;
            assert(is_tidy(cv.actions[k]));
        }
    }
    lemma_served(cv, p, s, list, list.len());
    assert forall|i: int| 0 <= i < list.len() implies world_at(s, facts_before(s, list, i as nat), (#[trigger] list[i]).id).holds(
        list[i].action.precondition,
    ) by {
        let j = choose|j: int| 0 <= j < p.steps.len() && p.steps[j] == list[i];
        assert(is_prepared(cv, p, p.steps[j]));
        assert(is_served(p, s, facts_before(s, list, i as nat), list[i].id));
    }
    let k = list.len() - 1;
    assert(p.steps.contains(list[k]));
    let j = choose|j: int| 0 <= j < p.steps.len() && p.steps[j] == list[k];
    assert(p.steps[j].id == GOAL_ID ==> p.steps[j].action == cv.goal);
}

/// A complete plan that a search reaches can be executed in every order that it
/// allows, and then the goal holds.
pub proof fn found_plans_execute(
    cv: ContextView,
    plans: Seq<PlanView>,
    flaws: Seq<FlawView>,
    s: spec_fn(Variable, usize) -> Object,
    list: Seq<StepView>,
)
    requires
        is_simple_task(cv),
        is_derivation(cv, plans, flaws),
        plans.last().is_complete(),
        is_possible(cv, plans.last(), s),
        is_linearization(plans.last(), list),
        forall|i: int| 0 <= i < cv.actions.len() ==> is_tidy(#[trigger] cv.actions[i]),
    ensures
        forall|i: int|
            0 <= i < list.len() ==> world_at(s, facts_before(s, list, i as nat), (#[trigger] list[i]).id).holds(list[i].action.precondition),
        world_at(s, facts_before(s, list, (list.len() - 1) as nat), GOAL_ID).holds(cv.goal.precondition),
{
    derived_plans_are_causal(cv, plans, flaws);
    complete_plans_execute(cv, plans.last(), s, list);
}

/// Where a precondition holds and does not keep an effect from being one of its
/// literals, the effect says what holds already.
proof fn lemma_not_separated(w: World, f: FormulaView, l: LiteralView)
    requires
        is_plain(f),
        w.holds(f),
        !w.holds(separated(f, l)),
    ensures
        l.negative != w.facts.contains(w.fact(l.atom)),
    decreases f,
{
    match f {
        FormulaView::Atom(a) => {
            separation_is_exact(w, a, l.atom);
        },
        FormulaView::Negation(a) => {
            separation_is_exact(w, a, l.atom);
        },
        FormulaView::Conjunction(cs) => {
            let fs = all_separators(cs, l);
            conjoined_is_exact(w, fs);
            let i = choose|i: int| 0 <= i < fs.len() && !w.holds(#[trigger] fs[i]);
            assert(w.holds(cs[i]));
            lemma_not_separated(w, cs[i], l);
        },
        FormulaView::Disjunction(ds) => {
            let fs = guarded_separators(ds, l);
            conjoined_is_exact(w, fs);
            let i = choose|i: int| 0 <= i < fs.len() && !w.holds(#[trigger] fs[i]);
            disjunction_is_exact(w, negated(ds[i]), separated(ds[i], l));
            negation_is_exact(w, ds[i]);
            lemma_not_separated(w, ds[i], l);
        },
        _ => {},
    }
}

/// What keeps a deletion clear of additions holds exactly where none that takes
/// place says the same.
proof fn lemma_clear_of(w: World, es: Seq<EffectView>, e: EffectView, n: nat)
    requires
        n <= es.len(),
        forall|k: int| 0 <= k < es.len() ==> (#[trigger] es[k]).parameters == e.parameters && es[k].when == e.when,
    ensures
        w.holds(clear_of(es, e, n)) == !exists|k: int|
            0 <= k < n && !(#[trigger] es[k]).literal.negative && w.fact(es[k].literal.atom) == w.fact(e.literal.atom) && w.holds(es[k].condition),
    decreases n,
{
    if n > 0 {
        lemma_clear_of(w, es, e, (n - 1) as nat);
        let other = es[n - 1];
        let before = clear_of(es, e, (n - 1) as nat);
        separation_is_exact(w, e.literal.atom, other.literal.atom);
        negation_is_exact(w, other.condition);
        if let Some(sep) = apart(e.literal.atom, other.literal.atom) {
            disjunction_is_exact(w, sep, negated(other.condition));
            conjunction_is_exact(w, before, either(sep, negated(other.condition)));
        }
        let said_here = !other.literal.negative && w.fact(other.literal.atom) == w.fact(e.literal.atom) && w.holds(other.condition);
        assert((exists|k: int|
            0 <= k < n && !(#[trigger] es[k]).literal.negative && w.fact(es[k].literal.atom) == w.fact(e.literal.atom) && w.holds(es[k].condition))
            == (said_here || exists|k: int|
            0 <= k < n - 1 && !(#[trigger] es[k]).literal.negative && w.fact(es[k].literal.atom) == w.fact(e.literal.atom) && w.holds(
                es[k].condition,
            )));
    }
}

/// Strengthening gives effects the link conditions that executing plans asks for: an
/// effect whose link condition is false changes nothing where the action can take
/// place, and one with a link condition that holds is not undone by the action
/// itself.
pub proof fn strengthened_effects_are_tidy(a: StepActionView, es: Seq<EffectView>)
    requires
        is_plain(a.precondition),
        a.effects == all_strengthened(es, a.precondition),
        forall|k: int| 0 <= k < es.len() ==> (#[trigger] es[k]).link_condition is True,
        forall|i: int, k: int|
            0 <= i < es.len() && 0 <= k < es.len() ==> (#[trigger] es[i]).parameters == (#[trigger] es[k]).parameters && es[i].when == es[k].when,
    ensures
        is_tidy(a),
{
    assert forall|s: spec_fn(Variable, usize) -> Object, facts: Set<(Predicate, Seq<Object>)>, id: usize, k: int|
        0 <= k < a.effects.len() && world_at(s, facts, id).holds(a.precondition) && #[trigger] world_at(s, facts, id).holds(a.effects[k].condition)
            implies keeps_tidy(s, facts, StepView { id, action: a }, a.effects[k]) by {
        let w = world_at(s, facts, id);
        let x = StepView { id, action: a };
        let b = es[k];
        let e = a.effects[k];
        let f = said(s, x, e);
        let sep = separated(a.precondition, b.literal);
        let clear = clear_of(es, b, es.len());
        lemma_fact_of(s, facts, e.literal.atom, id);
        conjunction_is_exact(w, b.link_condition, clear);
        conjunction_is_exact(w, both(b.link_condition, clear), sep);
        conjunction_is_exact(w, b.link_condition, sep);
        lemma_clear_of(w, es, b, es.len());
        if !w.holds(sep) {
            lemma_not_separated(w, a.precondition, b.literal);
        }
        assert((exists|n: int|
            0 <= n < es.len() && !(#[trigger] es[n]).literal.negative && w.fact(es[n].literal.atom) == w.fact(b.literal.atom) && w.holds(
                es[n].condition,
            )) == makes(s, facts, x, f, false)) by {
            if exists|n: int|
                0 <= n < es.len() && !(#[trigger] es[n]).literal.negative && w.fact(es[n].literal.atom) == w.fact(b.literal.atom) && w.holds(
                    es[n].condition,
                ) {
                let n = choose|n: int|
                    0 <= n < es.len() && !(#[trigger] es[n]).literal.negative && w.fact(es[n].literal.atom) == w.fact(b.literal.atom) && w.holds(
                        es[n].condition,
                    );
                lemma_fact_of(s, facts, es[n].literal.atom, id);
                assert(said(s, x, a.effects[n]) == f);
            }
            if makes(s, facts, x, f, false) {
                let n = choose|n: int|
                    0 <= n < a.effects.len() && (#[trigger] a.effects[n]).literal.negative == false && said(s, x, a.effects[n]) == f && w.holds(
                        a.effects[n].condition,
                    );
                lemma_fact_of(s, facts, a.effects[n].literal.atom, id);
                assert(!es[n].literal.negative);
            }
        }
    }
}

} // verus!
