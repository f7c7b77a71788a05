//! Finite-domain refinement loses no solution: a plan that an executable sequence of
//! operators realizes has, for each of its flaws, a child that the sequence realizes.
use vstd::prelude::*;

use crate::fdr::{all_hold, fact_in, holds, lemma_closure_in, lemma_passes_keep, state_in, EffectView, Fact, OperatorView, TaskView};
use crate::fdr_estimates::{achievers_of, effect_achievers, operator_achievers, sizes_fit, Achiever};
use crate::fdr_execution::{applicable, assign, executes, lemma_state_after_in, operators_in, result_of, state_after};
use crate::fdr_lmcut::{assignments, preconditions_of};
use crate::fdr_plan::{
    lemma_with_open_keeps, lemma_with_opens, lemma_without, with_opens, without, CausalLink, OpenCondition, PlanView, Step, Threat,
};
use crate::fdr_refine::{
    confrontations, new_step_children, open_children, reuse_children, step_reuse, threat_children, value_confrontations, with_plan,
};
use crate::orderings::with_pair;
use crate::params::ActionCost;
use crate::plan::{GOAL_ID, INIT_ID};
use crate::supports::supports_of;
use crate::supports_laws::{is_layered, supports_are_exact};

verus! {

/// The closed state that the operator at a position meets; behind the last, the one that the
/// sequence ends in.
pub open spec fn state_at(t: TaskView, ops: Seq<usize>, k: int) -> Seq<usize> {
    t.closure(state_after(t, ops, k as nat))
}

/// When a step happens in a sequence of operators: the initial state comes before the first
/// operator, the goal behind the last.
pub open spec fn time_of(ops: Seq<usize>, pos: spec_fn(int) -> int, id: int) -> int {
    if id == INIT_ID {
        -1
    } else if id == GOAL_ID {
        ops.len() as int
    } else {
        pos(id)
    }
}

/// Whether a condition holds when its consumer happens.
pub open spec fn is_met(t: TaskView, ops: Seq<usize>, pos: spec_fn(int) -> int, o: OpenCondition) -> bool {
    holds(state_at(t, ops, time_of(ops, pos, o.consumer as int)), o.condition)
}

/// Whether the condition of a link holds from behind its producer up to its consumer.
pub open spec fn is_kept(t: TaskView, ops: Seq<usize>, pos: spec_fn(int) -> int, l: CausalLink) -> bool {
    let from = time_of(ops, pos, l.producer as int);
    let to = time_of(ops, pos, l.consumer as int);
    &&& from < to
    &&& !t.derived(l.condition.variable as int)
    &&& forall|k: int| from < k <= to ==> holds(#[trigger] state_at(t, ops, k), l.condition)
}

/// Whether a sequence of operators realizes a plan: its steps happen at different positions,
/// in an order that the plan allows, each open condition holds when it is needed, and each
/// link's condition holds all along.
pub open spec fn realizes(t: TaskView, ops: Seq<usize>, pos: spec_fn(int) -> int, p: PlanView) -> bool {
    &&& forall|id: int| #[trigger] p.is_step(id) ==> 0 <= pos(id) < ops.len() && ops[pos(id)] == p.steps[id - 1].operator
    &&& forall|a: int, b: int| #[trigger] p.is_step(a) && #[trigger] p.is_step(b) && a != b ==> pos(a) != pos(b)
    &&& forall|a: int, b: int| #[trigger] p.order.contains((a, b)) ==> pos(a) < pos(b)
    &&& forall|o: OpenCondition| #[trigger] p.opens.contains(o) ==> is_met(t, ops, pos, o)
    &&& forall|l: CausalLink| #[trigger] p.links.contains(l) ==> is_kept(t, ops, pos, l)
}

/// Whether no two effects of an operator that take place together give a variable different
/// values.
pub open spec fn is_unambiguous(o: OperatorView) -> bool {
    forall|s: Seq<usize>, i: int, j: int|
        0 <= i < o.effects.len() && 0 <= j < o.effects.len() && o.effects[i].variable == o.effects[j].variable && #[trigger] all_hold(
            s,
            o.effects[i].conditions,
        ) && #[trigger] all_hold(s, o.effects[j].conditions) ==> o.effects[i].post == o.effects[j].post
}

/// What the laws here ask of a task: layered axioms, operators that assign no derived
/// variable, and none that contradicts itself.
pub open spec fn is_regular(t: TaskView, layer: spec_fn(int) -> nat) -> bool {
    &&& t.wf()
    &&& sizes_fit(t)
    &&& crate::supports::sizes_fit(t.variables)
    &&& is_layered(t, layer)
    &&& t.axioms_converge()
    &&& forall|i: int| 0 <= i < t.operators.len() ==> is_unambiguous(#[trigger] t.operators[i])
}

/// The closure leaves the variables that no axiom assigns.
pub proof fn lemma_closure_keeps(t: TaskView, s: Seq<usize>, v: int)
    requires
        t.wf(),
        state_in(t.variables, s),
        t.axioms_converge(),
        0 <= v < s.len(),
        !t.derived(v),
    ensures
        t.closure(s)[v] == s[v],
{
    assert(t.converges(s));
    let k = choose|k: nat| t.quiet(#[trigger] t.passes(t.reset(s), k));
    crate::fdr::lemma_reset_in(t, s);
    lemma_passes_keep(t, t.reset(s), k);
    assert(t.passes(t.reset(s), k)[v] == t.reset(s)[v]);
}

/// Where effects change a variable, one that takes place gives it its value.
pub proof fn lemma_assigned_by(before: Seq<usize>, effects: Seq<EffectView>, n: nat, v: int)
    requires
        n <= effects.len(),
        0 <= v < before.len(),
        forall|i: int| 0 <= i < effects.len() ==> (#[trigger] effects[i]).variable < before.len(),
    ensures
        assign(before, effects, n).len() == before.len(),
        assign(before, effects, n)[v] == before[v] || exists|i: int|
            0 <= i < n && (#[trigger] effects[i]).variable == v && effects[i].post == assign(before, effects, n)[v] && all_hold(
                before,
                effects[i].conditions,
            ),
    decreases n,
{
    if n > 0 {
        lemma_assigned_by(before, effects, (n - 1) as nat, v);
        let s = assign(before, effects, (n - 1) as nat);
        if all_hold(before, effects[n - 1].conditions) && effects[n - 1].variable == v {
            assert(effects[n - 1].post == assign(before, effects, n)[v]);
        }
    }
}

/// An effect that takes place gives its variable its value, where no other one that takes
/// place gives it a different one.
pub proof fn lemma_effect_assigns(before: Seq<usize>, o: OperatorView, n: nat, e: int)
    requires
        n <= o.effects.len(),
        0 <= e < n,
        is_unambiguous(o),
        all_hold(before, o.effects[e].conditions),
        forall|i: int| 0 <= i < o.effects.len() ==> (#[trigger] o.effects[i]).variable < before.len(),
    ensures
        assign(before, o.effects, n).len() == before.len(),
        assign(before, o.effects, n)[o.effects[e].variable as int] == o.effects[e].post,
    decreases n,
{
    let v = o.effects[e].variable as int;
    assert(o.effects[e].variable < before.len());
    lemma_assigned_by(before, o.effects, (n - 1) as nat, v);
    if e < n - 1 {
        lemma_effect_assigns(before, o, (n - 1) as nat, e);
    }
}

/// States on the way have a value for each variable.
pub proof fn lemma_states(t: TaskView, layer: spec_fn(int) -> nat, ops: Seq<usize>, k: int)
    requires
        is_regular(t, layer),
        operators_in(t, ops),
        0 <= k <= ops.len(),
    ensures
        state_in(t.variables, state_after(t, ops, k as nat)),
        state_in(t.variables, state_at(t, ops, k)),
{
    lemma_state_after_in(t, ops, k as nat);
    assert(t.converges(state_after(t, ops, k as nat)));
    lemma_closure_in(t, state_after(t, ops, k as nat));
}

/// The pairs of an order with one more pair respect the positions where that pair does.
proof fn lemma_pair_respects(order: Set<(int, int)>, pos: spec_fn(int) -> int, i: int, j: int)
    requires
        forall|a: int, b: int| #[trigger] order.contains((a, b)) ==> pos(a) < pos(b),
        pos(i) < pos(j),
    ensures
        forall|a: int, b: int| #[trigger] with_pair(order, i, j).contains((a, b)) ==> pos(a) < pos(b),
{
    assert forall|a: int, b: int| #[trigger] with_pair(order, i, j).contains((a, b)) implies pos(a) < pos(b) by {
        if !order.contains((a, b)) {
            assert(a == i || order.contains((a, i)));
            assert(b == j || order.contains((j, b)));
        }
    }
}

/// A plan with one step before another, where they happen in that order.
proof fn lemma_ordered(t: TaskView, ops: Seq<usize>, pos: spec_fn(int) -> int, p: PlanView, i: int, j: int)
    requires
        realizes(t, ops, pos, p),
        p.is_step(i),
        p.is_step(j),
        i != GOAL_ID,
        j != GOAL_ID,
        pos(i) < pos(j),
    ensures
        p.ordered_with(i, j) matches Some(q) && realizes(t, ops, pos, q) && q.opens == p.opens && q.links == p.links && q.steps == p.steps,
{
    if p.order.contains((j, i)) {
        assert(pos(j) < pos(i));
    }
    let q = p.ordered_with(i, j)->0;
    if !p.precedes(i, j) {
        lemma_pair_respects(p.order, pos, i, j);
    }
    assert forall|id: int| #[trigger] q.is_step(id) implies p.is_step(id) by {}
}

proof fn lemma_with_plan_keeps(list: Seq<PlanView>, plan: Option<PlanView>, x: PlanView)
    requires
        list.contains(x) || plan == Some(x),
    ensures
        with_plan(list, plan).contains(x),
{
    let more = with_plan(list, plan);
    if list.contains(x) {
        let i = choose|i: int| 0 <= i < list.len() && list[i] == x;
        assert(more[i] == x);
    } else {
        assert(more[list.len() as int] == x);
    }
}

proof fn lemma_value_confronted(p: PlanView, step: usize, fact: Fact, n: nat, list: Seq<PlanView>, x: PlanView, value: usize)
    requires
        list.contains(x) || (value < n && value != fact.value && x == p.confronted(step, Fact { variable: fact.variable, value })),
    ensures
        value_confrontations(p, step, fact, n, list).contains(x),
    decreases n,
{
    if n > 0 {
        let before = value_confrontations(p, step, fact, (n - 1) as nat, list);
        if list.contains(x) || value < n - 1 {
            lemma_value_confronted(p, step, fact, (n - 1) as nat, list, x, value);
        }
        let all = value_confrontations(p, step, fact, n, list);
        if before.contains(x) {
            let i = choose|i: int| 0 <= i < before.len() && before[i] == x;
            assert(all[i] == x);
        } else {
            assert(all[before.len() as int] == x);
        }
    }
}

proof fn lemma_confronted(t: TaskView, p: PlanView, step: usize, conditions: Seq<Fact>, n: nat, j: int, value: usize)
    requires
        n <= conditions.len(),
        0 <= j < n,
        value < t.variables[conditions[j].variable as int].values.len(),
        value != conditions[j].value,
    ensures
        confrontations(t, p, step, conditions, n).contains(p.confronted(step, Fact { variable: conditions[j].variable, value })),
    decreases n,
{
    let x = p.confronted(step, Fact { variable: conditions[j].variable, value });
    if j < n - 1 {
        lemma_confronted(t, p, step, conditions, (n - 1) as nat, j, value);
    }
    lemma_value_confronted(
        p,
        step,
        conditions[n - 1],
        t.variables[conditions[n - 1].variable as int].values.len(),
        confrontations(t, p, step, conditions, (n - 1) as nat),
        x,
        value,
    );
}

/// Resolving a threat loses no solution: where a sequence of operators realizes the plan,
/// it realizes one of the children. If the threatening effect takes place, its step happens
/// before the producer or behind the consumer; if not, one of its conditions has another
/// value.
pub proof fn resolving_a_threat_loses_no_solution(
    t: TaskView,
    layer: spec_fn(int) -> nat,
    ops: Seq<usize>,
    pos: spec_fn(int) -> int,
    p: PlanView,
    threat: Threat,
) -> (child: PlanView)
    requires
        is_regular(t, layer),
        operators_in(t, ops),
        p.wf(t),
        p.threatens(t, threat),
        realizes(t, ops, pos, p),
    ensures
        threat_children(t, p, threat).contains(child),
        realizes(t, ops, pos, child),
{
    let link = p.links[threat.link as int];
    assert(p.links.contains(link));
    assert(p.link_in(t, link));
    assert(is_kept(t, ops, pos, link));
    let s = threat.step as int;
    let op = t.operators[p.steps[s - 1].operator as int];
    let e = op.effects[threat.effect as int];
    let conditions = e.conditions;
    let k = pos(s);
    assert(p.is_step(s));
    assert(ops[k] == p.steps[s - 1].operator);
    let now = state_at(t, ops, k);
    lemma_states(t, layer, ops, k);
    lemma_states(t, layer, ops, k + 1);
    assert(crate::fdr::operator_in(t.variables, op));
    assert forall|i: int| 0 <= i < op.effects.len() implies (#[trigger] op.effects[i]).variable < now.len() by {
        assert(crate::fdr::effect_in(t.variables, op.effects[i]));
    }
    assert(crate::fdr::effect_in(t.variables, e));
    let confronted = confrontations(t, p, threat.step, conditions, conditions.len());
    let promotion = p.ordered_with(link.consumer as int, s);
    let demotion = p.ordered_with(s, link.producer as int);
    let promoted = if link.consumer == GOAL_ID {
        confronted
    } else {
        with_plan(confronted, promotion)
    };
    if all_hold(now, conditions) {
        lemma_effect_assigns(now, op, op.effects.len(), threat.effect as int);
        let after = state_after(t, ops, (k + 1) as nat);
        assert(after == result_of(op, now));
        assert(after[e.variable as int] == e.post);
        lemma_closure_keeps(t, after, e.variable as int);
        assert(!holds(state_at(t, ops, k + 1), link.condition));
        let from = time_of(ops, pos, link.producer as int);
        let to = time_of(ops, pos, link.consumer as int);
        assert(!(from < k + 1 <= to));
        if k >= to {
            let c = link.consumer as int;
            assert(p.is_step(c));
            assert(c != s);
            lemma_ordered(t, ops, pos, p, c, s);
            lemma_with_plan_keeps(confronted, promotion, promotion->0);
            if link.producer != INIT_ID {
                lemma_with_plan_keeps(promoted, demotion, promotion->0);
            }
            promotion->0
        } else {
            let c = link.producer as int;
            assert(link.producer != INIT_ID);
            assert(p.is_step(c));
            assert(c != s);
            lemma_ordered(t, ops, pos, p, s, c);
            lemma_with_plan_keeps(promoted, demotion, demotion->0);
            demotion->0
        }
    } else {
        let j = choose|j: int| 0 <= j < conditions.len() && !holds(now, #[trigger] conditions[j]);
        assert(fact_in(t.variables, conditions[j]));
        let value = now[conditions[j].variable as int];
        let fact = Fact { variable: conditions[j].variable, value };
        let child = p.confronted(threat.step, fact);
        lemma_confronted(t, p, threat.step, conditions, conditions.len(), j, value);
        if link.consumer != GOAL_ID {
            lemma_with_plan_keeps(confronted, promotion, child);
        }
        if link.producer != INIT_ID {
            lemma_with_plan_keeps(promoted, demotion, child);
        }
        let open = OpenCondition { consumer: threat.step, condition: fact };
        lemma_with_open_keeps(p.opens, open);
        assert(threat.step != INIT_ID && threat.step != GOAL_ID);
        assert(is_met(t, ops, pos, open));
        assert forall|o: OpenCondition| #[trigger] child.opens.contains(o) implies is_met(t, ops, pos, o) by {}
        assert forall|id: int| #[trigger] child.is_step(id) implies p.is_step(id) by {}
        child
    }
}

proof fn lemma_effect_achiever(effects: Seq<EffectView>, operator: usize, fact: Fact, n: nat, e: int)
    requires
        n <= effects.len(),
        n <= usize::MAX,
        0 <= e < n,
        assignments(effects)[e] == fact,
    ensures
        effect_achievers(effects, operator, fact, n).contains(Achiever { operator, effect: e as usize }),
    decreases n,
{
    let a = Achiever { operator, effect: e as usize };
    let all = effect_achievers(effects, operator, fact, n);
    let before = effect_achievers(effects, operator, fact, (n - 1) as nat);
    if e < n - 1 {
        lemma_effect_achiever(effects, operator, fact, (n - 1) as nat, e);
        let i = choose|i: int| 0 <= i < before.len() && before[i] == a;
        assert(all[i] == a);
    } else {
        assert(all[before.len() as int] == a);
    }
}

/// Every effect that assigns a fact is among its achievers.
proof fn lemma_is_achiever(t: TaskView, fact: Fact, n: nat, o: int, e: int)
    requires
        sizes_fit(t),
        n <= t.operators.len(),
        0 <= o < n,
        0 <= e < t.operators[o].effects.len(),
        assignments(t.operators[o].effects)[e] == fact,
    ensures
        operator_achievers(t, fact, n).contains(Achiever { operator: o as usize, effect: e as usize }),
    decreases n,
{
    let a = Achiever { operator: o as usize, effect: e as usize };
    let all = operator_achievers(t, fact, n);
    let before = operator_achievers(t, fact, (n - 1) as nat);
    let own = effect_achievers(t.operators[n - 1].effects, (n - 1) as usize, fact, t.operators[n - 1].effects.len());
    assert(t.operators[o].effects.len() <= usize::MAX);
    if o < n - 1 {
        lemma_is_achiever(t, fact, (n - 1) as nat, o, e);
        let i = choose|i: int| 0 <= i < before.len() && before[i] == a;
        assert(all[i] == a);
    } else {
        lemma_effect_achiever(t.operators[o].effects, o as usize, fact, t.operators[o].effects.len(), e);
        let i = choose|i: int| 0 <= i < own.len() && own[i] == a;
        assert(all[before.len() + i] == a);
    }
}

proof fn lemma_new_step_child(t: TaskView, cost: ActionCost, p: PlanView, at: int, achievers: Seq<Achiever>, n: nat, i: int, x: PlanView)
    requires
        n <= achievers.len(),
        0 <= i < n,
        p.stepped(t, cost, at, achievers[i].operator, achievers[i].effect) == Some(x),
    ensures
        new_step_children(t, cost, p, at, achievers, n).contains(x),
    decreases n,
{
    if i < n - 1 {
        lemma_new_step_child(t, cost, p, at, achievers, (n - 1) as nat, i, x);
    }
    lemma_with_plan_keeps(
        new_step_children(t, cost, p, at, achievers, (n - 1) as nat),
        p.stepped(t, cost, at, achievers[n - 1].operator, achievers[n - 1].effect),
        x,
    );
}

/// What supporting a condition by an effect gives.
spec fn support_by(t: TaskView, p: PlanView, at: int, step: Step, a: Achiever) -> Option<PlanView> {
    p.supported(at, step.id, Some(a.effect), t.operators[a.operator as int].effects[a.effect as int].conditions)
}

proof fn lemma_step_reused(t: TaskView, p: PlanView, at: int, step: Step, achievers: Seq<Achiever>, n: nat, list: Seq<PlanView>, i: int, x: PlanView)
    requires
        n <= achievers.len(),
        list.contains(x) || (0 <= i < n && achievers[i].operator == step.operator && support_by(t, p, at, step, achievers[i]) == Some(x)),
    ensures
        step_reuse(t, p, at, step, achievers, n, list).contains(x),
    decreases n,
{
    if n > 0 {
        let before = step_reuse(t, p, at, step, achievers, (n - 1) as nat, list);
        if list.contains(x) || i < n - 1 {
            lemma_step_reused(t, p, at, step, achievers, (n - 1) as nat, list, i, x);
        }
        if achievers[n - 1].operator == step.operator {
            lemma_with_plan_keeps(before, support_by(t, p, at, step, achievers[n - 1]), x);
        }
    }
}

proof fn lemma_reused(t: TaskView, p: PlanView, at: int, achievers: Seq<Achiever>, n: nat, list: Seq<PlanView>, s: int, i: int, x: PlanView)
    requires
        n <= p.steps.len(),
        list.contains(x) || {
            &&& p.steps.len() - n <= s < p.steps.len()
            &&& 0 <= i < achievers.len()
            &&& achievers[i].operator == p.steps[s].operator
            &&& p.may_precede(p.steps[s].id as int, p.opens[at].consumer as int)
            &&& support_by(t, p, at, p.steps[s], achievers[i]) == Some(x)
        },
    ensures
        reuse_children(t, p, at, achievers, n, list).contains(x),
    decreases n,
{
    if n > 0 {
        let before = reuse_children(t, p, at, achievers, (n - 1) as nat, list);
        if list.contains(x) || s > p.steps.len() - n {
            lemma_reused(t, p, at, achievers, (n - 1) as nat, list, s, i, x);
        }
        let step = p.steps[p.steps.len() - n];
        if p.may_precede(step.id as int, p.opens[at].consumer as int) {
            lemma_step_reused(t, p, at, step, achievers, achievers.len(), before, i, x);
        }
    }
}

/// From where on a fact holds up to a position.
proof fn lemma_since(t: TaskView, ops: Seq<usize>, fact: Fact, c: int) -> (j: int)
    requires
        0 <= c,
        holds(state_at(t, ops, c), fact),
    ensures
        0 <= j <= c,
        forall|k: int| j <= k <= c ==> holds(#[trigger] state_at(t, ops, k), fact),
        j > 0 ==> !holds(state_at(t, ops, j - 1), fact),
    decreases c,
{
    if c == 0 || !holds(state_at(t, ops, c - 1), fact) {
        c
    } else {
        let j = lemma_since(t, ops, fact, c - 1);
        assert forall|k: int| j <= k <= c implies holds(#[trigger] state_at(t, ops, k), fact) by {}
        j
    }
}

/// Whether a child is realized once its new link and open conditions are.
proof fn lemma_supported(
    t: TaskView,
    ops: Seq<usize>,
    pos: spec_fn(int) -> int,
    p: PlanView,
    at: int,
    producer: usize,
    effect: Option<usize>,
    conditions: Seq<Fact>,
)
    requires
        realizes(t, ops, pos, p),
        p.wf(t),
        0 <= at < p.opens.len(),
        producer == INIT_ID || p.is_step(producer as int),
        is_kept(t, ops, pos, (CausalLink { producer, consumer: p.opens[at].consumer, condition: p.opens[at].condition, effect })),
        conditions.len() > 0 ==> producer != INIT_ID,
        forall|i: int| 0 <= i < conditions.len() ==> holds(state_at(t, ops, pos(producer as int)), #[trigger] conditions[i]),
    ensures
        p.supported(at, producer, effect, conditions) matches Some(q) && realizes(t, ops, pos, q),
        p.may_precede(producer as int, p.opens[at].consumer as int),
{
    let open = p.opens[at];
    assert(p.opens.contains(open));
    assert(p.open_in(t, open));
    let a = producer as int;
    let b = open.consumer as int;
    if p.order.contains((b, a)) {
        assert(pos(b) < pos(a));
        assert(p.is_step(b) && p.is_step(a));
    }
    if p.order.contains((b, 0int)) {
        assert(p.is_step(0));
    }
    let q0 = p.ordered_with(a, b)->0;
    if !p.precedes(a, b) {
        lemma_pair_respects(p.order, pos, a, b);
    }
    let q = p.supported(at, producer, effect, conditions)->0;
    lemma_without(p.opens, at);
    lemma_with_opens(without(p.opens, at), producer, conditions, conditions.len());
    assert forall|o: OpenCondition| #[trigger] q.opens.contains(o) implies is_met(t, ops, pos, o) by {
        if !without(p.opens, at).contains(o) {
            let i = choose|i: int| 0 <= i < conditions.len() && conditions[i] == o.condition;
            assert(holds(state_at(t, ops, pos(producer as int)), conditions[i]));
        }
    }
    assert forall|l: CausalLink| #[trigger] q.links.contains(l) implies is_kept(t, ops, pos, l) by {
        let i = choose|i: int| 0 <= i < q.links.len() && q.links[i] == l;
        if i < p.links.len() {
            assert(p.links[i] == l);
            assert(p.links.contains(l));
        }
    }
    assert forall|id: int| #[trigger] q.is_step(id) implies p.is_step(id) by {}
}

/// The positions with one more step.
spec fn with_step(pos: spec_fn(int) -> int, id: int, k: int) -> spec_fn(int) -> int {
    |i: int|
        if i == id {
            k
        } else {
            pos(i)
        }
}

proof fn lemma_stepped(
    t: TaskView,
    layer: spec_fn(int) -> nat,
    cost: ActionCost,
    ops: Seq<usize>,
    pos: spec_fn(int) -> int,
    p: PlanView,
    at: int,
    operator: usize,
    effect: usize,
    k: int,
)
    requires
        is_regular(t, layer),
        executes(t, ops),
        realizes(t, ops, pos, p),
        p.wf(t),
        0 <= at < p.opens.len(),
        p.steps.len() < usize::MAX / 4,
        0 <= k < ops.len(),
        ops[k] == operator,
        operator < t.operators.len(),
        effect < t.operators[operator as int].effects.len(),
        all_hold(state_at(t, ops, k), t.operators[operator as int].effects[effect as int].conditions),
        forall|id: int| #[trigger] p.is_step(id) ==> pos(id) != k,
        !t.derived(p.opens[at].condition.variable as int),
        k < time_of(ops, pos, p.opens[at].consumer as int),
        forall|j: int| k < j <= time_of(ops, pos, p.opens[at].consumer as int) ==> holds(#[trigger] state_at(t, ops, j), p.opens[at].condition),
    ensures
        p.stepped(t, cost, at, operator, effect) matches Some(q) && realizes(t, ops, with_step(pos, (p.steps.len() + 1) as int, k), q),
{
    let open = p.opens[at];
    assert(p.opens.contains(open));
    assert(p.open_in(t, open));
    let o = t.operators[operator as int];
    let pre = preconditions_of(o);
    let conditions = o.effects[effect as int].conditions;
    let id = (p.steps.len() + 1) as usize;
    let now = with_step(pos, (p.steps.len() + 1) as int, k);
    let b = open.consumer as int;
    assert(!p.is_step(id as int));
    if p.order.contains((b, id as int)) {
        assert(p.is_step(id as int));
    }
    if p.order.contains((id as int, b)) {
        assert(p.is_step(id as int));
    }
    assert forall|x: int, y: int| #[trigger] p.order.contains((x, y)) implies now(x) < now(y) by {
        assert(p.is_step(x) && p.is_step(y));
        assert(x != id && y != id);
    }
    if !p.precedes(id as int, b) {
        assert(p.is_step(b));
        lemma_pair_respects(p.order, now, id as int, b);
    }
    let q = p.stepped(t, cost, at, operator, effect)->0;
    assert forall|x: int| p.is_step(x) || x == GOAL_ID || x == INIT_ID implies #[trigger] time_of(ops, now, x) == time_of(ops, pos, x) by {}
    assert(applicable(o, state_at(t, ops, k))) by {
        assert(applicable(t.operators[ops[k] as int], t.closure(state_after(t, ops, k as nat))));
    }
    let base = without(p.opens, at);
    lemma_without(p.opens, at);
    lemma_with_opens(base, id, pre, pre.len());
    lemma_with_opens(with_opens(base, id, pre, pre.len()), id, conditions, conditions.len());
    assert forall|x: OpenCondition| #[trigger] q.opens.contains(x) implies is_met(t, ops, now, x) by {
        if base.contains(x) {
            assert(p.opens.contains(x));
            let i = choose|i: int| 0 <= i < p.opens.len() && p.opens[i] == x;
            assert(p.open_in(t, p.opens[i]));
            assert(is_met(t, ops, pos, x));
            assert(time_of(ops, now, x.consumer as int) == time_of(ops, pos, x.consumer as int));
        } else if with_opens(base, id, pre, pre.len()).contains(x) {
            let i = choose|i: int| 0 <= i < pre.len() && pre[i] == x.condition;
            assert(holds(state_at(t, ops, k), pre[i]));
        } else {
            let i = choose|i: int| 0 <= i < conditions.len() && conditions[i] == x.condition;
            assert(holds(state_at(t, ops, k), conditions[i]));
        }
    }
    assert forall|l: CausalLink| #[trigger] q.links.contains(l) implies is_kept(t, ops, now, l) by {
        let i = choose|i: int| 0 <= i < q.links.len() && q.links[i] == l;
        if i < p.links.len() {
            assert(p.links[i] == l);
            assert(p.links.contains(l));
            assert(p.link_in(t, p.links[i]));
            assert(is_kept(t, ops, pos, l));
            assert(time_of(ops, now, l.consumer as int) == time_of(ops, pos, l.consumer as int));
            assert(time_of(ops, now, l.producer as int) == time_of(ops, pos, l.producer as int));
        } else {
            assert(time_of(ops, now, b) == time_of(ops, pos, b));
        }
    }
    assert forall|x: int| #[trigger] q.is_step(x) implies 0 <= now(x) < ops.len() && ops[now(x)] == q.steps[x - 1].operator by {
        if x != id {
            assert(p.is_step(x));
        }
    }
    assert forall|x: int, y: int| #[trigger] q.is_step(x) && #[trigger] q.is_step(y) && x != y implies now(x) != now(y) by {
        if x != id {
            assert(p.is_step(x));
        }
        if y != id {
            assert(p.is_step(y));
        }
    }
}

/// Resolving an open condition loses no solution: where an executable sequence of operators
/// realizes the plan, it realizes one of the children. The condition holds since the initial
/// state, or since an operator gave it its value; the steps stay where they happen, and that
/// operator's is a step of the plan or a new one.
pub proof fn resolving_a_condition_loses_no_solution(
    t: TaskView,
    layer: spec_fn(int) -> nat,
    cost: ActionCost,
    ops: Seq<usize>,
    pos: spec_fn(int) -> int,
    p: PlanView,
    at: int,
) -> (res: (PlanView, spec_fn(int) -> int))
    requires
        is_regular(t, layer),
        operators_in(t, ops),
        executes(t, ops),
        p.wf(t),
        p.steps.len() < usize::MAX / 4,
        0 <= at < p.opens.len(),
        realizes(t, ops, pos, p),
    ensures
        open_children(t, cost, p, at).contains(res.0),
        realizes(t, ops, res.1, res.0),
        forall|id: int| #[trigger] p.is_step(id) ==> (res.1)(id) == pos(id),
{
    let open = p.opens[at];
    assert(p.opens.contains(open));
    assert(p.open_in(t, open));
    let fact = open.condition;
    let v = fact.variable as int;
    let c = time_of(ops, pos, open.consumer as int);
    assert(is_met(t, ops, pos, open));
    assert(0 <= c <= ops.len()) by {
        if open.consumer != GOAL_ID {
            assert(p.is_step(open.consumer as int));
        }
    }
    lemma_states(t, layer, ops, c);
    if t.derived(v) {
        let supports = supports_of(t, fact);
        supports_are_exact(t, layer, state_after(t, ops, c as nat), fact);
        let i = choose|i: int| 0 <= i < supports.len() && all_hold(state_at(t, ops, c), #[trigger] supports[i]);
        let child = p.expanded_to(at, supports[i]);
        let all = supports.map_values(|s: Seq<Fact>| p.expanded_to(at, s));
        assert(all[i] == child);
        lemma_without(p.opens, at);
        lemma_with_opens(without(p.opens, at), open.consumer, supports[i], supports[i].len());
        assert forall|o: OpenCondition| #[trigger] child.opens.contains(o) implies is_met(t, ops, pos, o) by {
            if !without(p.opens, at).contains(o) {
                let k = choose|k: int| 0 <= k < supports[i].len() && supports[i][k] == o.condition;
                assert(holds(state_at(t, ops, c), supports[i][k]));
            }
        }
        assert forall|id: int| #[trigger] child.is_step(id) implies p.is_step(id) by {}
        (child, pos)
    } else {
        let achievers = achievers_of(t, fact);
        let fresh = new_step_children(t, cost, p, at, achievers, achievers.len());
        let reused = reuse_children(t, p, at, achievers, p.steps.len(), fresh);
        let from_init = p.supported(at, INIT_ID, None, Seq::empty());
        let j = lemma_since(t, ops, fact, c);
        if j == 0 {
            lemma_states(t, layer, ops, 0);
            lemma_closure_keeps(t, t.initial, v);
            assert(holds(state_at(t, ops, 0), fact));
            lemma_supported(t, ops, pos, p, at, INIT_ID, None, Seq::empty());
            lemma_with_plan_keeps(reused, from_init, from_init->0);
            (from_init->0, pos)
        } else {
            let k = j - 1;
            let now = state_at(t, ops, k);
            lemma_states(t, layer, ops, k);
            lemma_states(t, layer, ops, j);
            let operator = ops[k];
            let o = t.operators[operator as int];
            assert(crate::fdr::operator_in(t.variables, o));
            assert forall|i: int| 0 <= i < o.effects.len() implies (#[trigger] o.effects[i]).variable < now.len() by {
                assert(crate::fdr::effect_in(t.variables, o.effects[i]));
            }
            let after = state_after(t, ops, j as nat);
            assert(after == result_of(o, now));
            lemma_closure_keeps(t, after, v);
            assert(holds(state_at(t, ops, j), fact));
            lemma_assigned_by(now, o.effects, o.effects.len(), v);
            let e = choose|e: int|
                0 <= e < o.effects.len() && (#[trigger] o.effects[e]).variable == v && o.effects[e].post == after[v] && all_hold(
                    now,
                    o.effects[e].conditions,
                );
            assert(assignments(o.effects)[e] == fact);
            assert(o.effects.len() <= usize::MAX);
            lemma_is_achiever(t, fact, t.operators.len(), operator as int, e);
            let a = Achiever { operator, effect: e as usize };
            let i = choose|i: int| 0 <= i < achievers.len() && achievers[i] == a;
            if exists|s: int| #[trigger] p.is_step(s) && pos(s) == k {
                let s = choose|s: int| #[trigger] p.is_step(s) && pos(s) == k;
                let step = p.steps[s - 1];
                assert(step.id == s);
                assert(step.operator == operator);
                lemma_supported(t, ops, pos, p, at, step.id, Some(a.effect), o.effects[e].conditions);
                let child = support_by(t, p, at, step, a)->0;
                lemma_reused(t, p, at, achievers, p.steps.len(), fresh, s - 1, i, child);
                lemma_with_plan_keeps(reused, from_init, child);
                (child, pos)
            } else {
                lemma_stepped(t, layer, cost, ops, pos, p, at, operator, e as usize, k);
                let child = p.stepped(t, cost, at, operator, e as usize)->0;
                lemma_new_step_child(t, cost, p, at, achievers, achievers.len(), i, child);
                lemma_reused(t, p, at, achievers, p.steps.len(), fresh, 0, 0, child);
                lemma_with_plan_keeps(reused, from_init, child);
                (child, with_step(pos, (p.steps.len() + 1) as int, k))
            }
        }
    }
}

/// Every executable sequence of operators realizes the empty plan.
pub proof fn solutions_realize_the_empty_plan(t: TaskView, ops: Seq<usize>, pos: spec_fn(int) -> int)
    requires
        executes(t, ops),
    ensures
        realizes(t, ops, pos, PlanView::initial(t)),
{
    let p = PlanView::initial(t);
    assert forall|o: OpenCondition| #[trigger] p.opens.contains(o) implies is_met(t, ops, pos, o) by {
        let i = choose|i: int| 0 <= i < p.opens.len() && p.opens[i] == o;
        assert(holds(t.closure(state_after(t, ops, ops.len())), t.goals[i]));
    }
}

} // verus!
