//! Why the landmark-cut estimate of a finite-domain partial plan is admissible.
use vstd::prelude::*;

use crate::fdr::{
    all_hold, effect_in, fact_in, facts_in, holds, is_precondition, lemma_closure_in, lemma_passes_keep, lemma_precondition_in, lemma_reset_in,
    one_per_variable, operator_in, required_value, state_in, EffectView, Fact, OperatorView, TaskView,
};
use crate::fdr_estimates::{committed_facts, is_lmcut_estimate, open_facts, reused};
use crate::fdr_execution::{applicable, assign, lemma_state_after_in, operators_in, state_after};
use crate::fdr_lmcut::{
    assignments, derived_actions, initial_facts, number, numbers, operator_action, operator_fits, preconditions_of, relaxation, value_actions,
    FdrLmCut,
};
use crate::fdr_plan::PlanView;
use crate::lmcut::{capped, cut_sequence, cut_total, enabled, facts_after, is_lm_cut_value, lm_cut_is_admissible, plan_cost, relaxed_plan, tidied, ActionView, Cut};
use crate::params::ActionCost;
use crate::supports::{some_holds, supports_of};

verus! {

/// Whether the supports of every derived fact cover the states in whose closure it
/// holds.
pub open spec fn supports_cover(t: TaskView) -> bool {
    forall|state: Seq<usize>, fact: Fact|
        state_in(t.variables, state) && fact_in(t.variables, fact) && t.derived(fact.variable as int) && #[trigger] holds(t.closure(state), fact)
            ==> some_holds(supports_of(t, fact), state)
}

/// Whether every operator is applicable in the state that it meets.
pub open spec fn is_applicable_sequence(t: TaskView, operators: Seq<usize>) -> bool {
    forall|k: int|
        0 <= k < operators.len() ==> applicable(
            t.operators[#[trigger] operators[k] as int],
            t.closure(state_after(t, operators, k as nat)),
        )
}

/// Whether a fact holds at some point of an execution, after at most `n` operators.
pub open spec fn occurs(t: TaskView, operators: Seq<usize>, n: nat, fact: Fact) -> bool {
    exists|m: nat| m <= n && #[trigger] holds(t.closure(state_after(t, operators, m)), fact)
}

/// Whether every open condition of a plan holds at some point of the execution.
pub open spec fn meets_opens(t: TaskView, operators: Seq<usize>, p: PlanView) -> bool {
    forall|i: int| 0 <= i < p.opens.len() ==> occurs(t, operators, operators.len(), (#[trigger] p.opens[i]).condition)
}

/// Whether the operator at a position is that of a step of the plan.
pub open spec fn is_committed(p: PlanView, operators: Seq<usize>, k: int) -> bool {
    exists|i: int| 0 <= i < p.steps.len() && (#[trigger] p.steps[i]).operator == operators[k]
}

/// The cost of the first `n` operators without those at the given positions.
pub open spec fn additional_cost(t: TaskView, cost: ActionCost, operators: Seq<usize>, own: Set<int>, n: nat) -> nat
    decreases n,
{
    if n == 0 {
        0
    } else {
        additional_cost(t, cost, operators, own, (n - 1) as nat) + if own.contains(n - 1) {
            0
        } else {
            cost.cost_of(t.operators[operators[n - 1] as int].cost) as nat
        }
    }
}

// ---------------------------------------------------------------------------
// Preconditions
// ---------------------------------------------------------------------------

/// The values that an operator requires of the variables below `v`.
spec fn required(o: OperatorView, v: nat) -> Seq<Fact>
    decreases v,
{
    if v == 0 {
        Seq::empty()
    } else {
        let before = required(o, (v - 1) as nat);
        match required_value(o, (v - 1) as usize) {
            Some(value) => before.push(Fact { variable: (v - 1) as usize, value }),
            None => before,
        }
    }
}

proof fn lemma_required(o: OperatorView, v: nat)
    requires
        v <= usize::MAX + 1,
    ensures
        one_per_variable(required(o, v)),
        forall|f: Fact| #[trigger] required(o, v).contains(f) <==> f.variable < v && required_value(o, f.variable) == Some(f.value),
    decreases v,
{
    if v > 0 {
        lemma_required(o, (v - 1) as nat);
        let before = required(o, (v - 1) as nat);
        let all = required(o, v);
        assert forall|i: int| 0 <= i < before.len() implies (#[trigger] before[i]).variable < v - 1 by {
            assert(before.contains(before[i]));
        }
        assert forall|f: Fact| #[trigger] all.contains(f) <==> f.variable < v && required_value(o, f.variable) == Some(f.value) by {
            if before.contains(f) {
                let i = choose|i: int| 0 <= i < before.len() && before[i] == f;
                assert(all[i] == f);
            }
            if let Some(value) = required_value(o, (v - 1) as usize) {
                assert(all[all.len() - 1] == (Fact { variable: (v - 1) as usize, value }));
            }
            if all.contains(f) {
                let i = choose|i: int| 0 <= i < all.len() && all[i] == f;
                if i < before.len() {
                    assert(before[i] == f);
                    assert(before.contains(f));
                }
            }
        }
    } else {
        assert forall|f: Fact| !(#[trigger] required(o, 0).contains(f)) by {}
    }
}

proof fn lemma_preconditions_in(t: TaskView, o: OperatorView)
    requires
        operator_in(t.variables, o),
    ensures
        facts_in(t.variables, preconditions_of(o)),
{
    let all = required(o, (usize::MAX + 1) as nat);
    lemma_required(o, (usize::MAX + 1) as nat);
    assert(is_precondition(o, all));
    assert(is_precondition(o, preconditions_of(o)));
    lemma_precondition_in(t.variables, o, preconditions_of(o));
}

// ---------------------------------------------------------------------------
// Relaxed plans
// ---------------------------------------------------------------------------

/// Whether every action of a relaxed plan is enabled when its turn comes.
spec fn is_enabled_sequence(acts: Seq<ActionView>, start: Seq<usize>, plan: Seq<int>) -> bool {
    forall|k: int| 0 <= k < plan.len() ==> 0 <= #[trigger] plan[k] < acts.len() && enabled(acts[plan[k]], facts_after(acts, start, plan, k as nat))
}

/// The facts that a relaxed plan reaches.
spec fn reached(acts: Seq<ActionView>, start: Seq<usize>, plan: Seq<int>) -> Set<usize> {
    facts_after(acts, start, plan, plan.len())
}

proof fn lemma_prefix(acts: Seq<ActionView>, start: Seq<usize>, plan: Seq<int>, a: int, k: nat)
    requires
        k <= plan.len(),
    ensures
        facts_after(acts, start, plan.push(a), k) == facts_after(acts, start, plan, k),
    decreases k,
{
    if k > 0 {
        lemma_prefix(acts, start, plan, a, (k - 1) as nat);
        assert(facts_after(acts, start, plan.push(a), k) =~= facts_after(acts, start, plan, k));
    }
}

proof fn lemma_extend(acts: Seq<ActionView>, start: Seq<usize>, plan: Seq<int>, a: int)
    requires
        is_enabled_sequence(acts, start, plan),
        0 <= a < acts.len(),
        enabled(acts[a], reached(acts, start, plan)),
    ensures
        is_enabled_sequence(acts, start, plan.push(a)),
        forall|f: usize| #[trigger] reached(acts, start, plan.push(a)).contains(f) <==> reached(acts, start, plan).contains(f) || acts[a].add.contains(f),
        plan_cost(acts, plan.push(a)) == plan_cost(acts, plan) + acts[a].cost,
{
    let more = plan.push(a);
    assert(more.drop_last() =~= plan);
    lemma_prefix(acts, start, plan, a, plan.len());
    assert forall|k: int| 0 <= k < more.len() implies 0 <= #[trigger] more[k] < acts.len() && enabled(
        acts[more[k]],
        facts_after(acts, start, more, k as nat),
    ) by {
        lemma_prefix(acts, start, plan, a, k as nat);
        if k < plan.len() {
            assert(more[k] == plan[k]);
        }
    }
}

proof fn lemma_start(acts: Seq<ActionView>, start: Seq<usize>, plan: Seq<int>, k: nat, f: usize)
    requires
        start.contains(f),
    ensures
        facts_after(acts, start, plan, k).contains(f),
    decreases k,
{
    if k > 0 {
        lemma_start(acts, start, plan, (k - 1) as nat, f);
    }
}

// ---------------------------------------------------------------------------
// The actions of the relaxation
// ---------------------------------------------------------------------------

spec fn support_action(t: TaskView, fact: Fact, s: Seq<Fact>) -> ActionView {
    ActionView { pre: numbers(t.variables, s), add: seq![number(t.variables, fact) as usize], cost: 0 }
}

proof fn lemma_value_actions(t: TaskView, v: nat, w: nat, value: usize, i: int) -> (a: int)
    requires
        value < w <= usize::MAX,
        v <= usize::MAX,
        0 <= i < supports_of(t, Fact { variable: v as usize, value }).len(),
    ensures
        0 <= a < value_actions(t, v, w).len(),
        value_actions(t, v, w)[a] == support_action(
            t,
            Fact { variable: v as usize, value },
            supports_of(t, Fact { variable: v as usize, value })[i],
        ),
    decreases w,
{
    let before = value_actions(t, v, (w - 1) as nat);
    if value < w - 1 {
        lemma_value_actions(t, v, (w - 1) as nat, value, i)
    } else {
        before.len() + i
    }
}

proof fn lemma_derived_actions(t: TaskView, n: nat, fact: Fact, i: int) -> (a: int)
    requires
        fact.variable < n <= t.variables.len(),
        fact_in(t.variables, fact),
        t.derived(fact.variable as int),
        t.variables.len() <= usize::MAX,
        t.variables[fact.variable as int].values.len() <= usize::MAX,
        0 <= i < supports_of(t, fact).len(),
    ensures
        0 <= a < derived_actions(t, n).len(),
        derived_actions(t, n)[a] == support_action(t, fact, supports_of(t, fact)[i]),
    decreases n,
{
    let before = derived_actions(t, (n - 1) as nat);
    if fact.variable < n - 1 {
        lemma_derived_actions(t, (n - 1) as nat, fact, i)
    } else {
        assert(fact == (Fact { variable: (n - 1) as usize, value: fact.value }));
        let b = lemma_value_actions(t, (n - 1) as nat, t.variables[n - 1].values.len(), fact.value, i);
        before.len() + b
    }
}

/// The graph has the actions of the relaxation, up to order and repetition of facts.
spec fn is_graph(acts: Seq<ActionView>, t: TaskView, cost: ActionCost) -> bool {
    &&& acts.len() == relaxation(t, cost).len()
    &&& forall|a: int| 0 <= a < acts.len() ==> tidied(relaxation(t, cost)[a], #[trigger] acts[a])
}

proof fn lemma_tidied_enabled(a: ActionView, b: ActionView, facts: Set<usize>)
    requires
        tidied(a, b),
        enabled(a, facts),
    ensures
        enabled(b, facts),
{
    assert forall|i: int| 0 <= i < b.pre.len() implies facts.contains(#[trigger] b.pre[i]) by {
        assert(b.pre.contains(b.pre[i]));
        assert(a.pre.contains(b.pre[i]));
        let k = choose|k: int| 0 <= k < a.pre.len() && a.pre[k] == b.pre[i];
        assert(facts.contains(a.pre[k]));
    }
}

// ---------------------------------------------------------------------------
// From an execution to a relaxed plan
// ---------------------------------------------------------------------------

/// Whether the facts of all states up to the `n`th are reached, but for those of
/// derived variables.
spec fn covers(t: TaskView, facts: Set<usize>, operators: Seq<usize>, n: nat) -> bool {
    forall|m: nat, v: int|
        m <= n && 0 <= v < t.variables.len() && !t.derived(v) ==> facts.contains(
            number(t.variables, Fact { variable: v as usize, value: #[trigger] state_after(t, operators, m)[v] }) as usize,
        )
}

/// What an execution is held against.
spec fn is_setting(acts: Seq<ActionView>, t: TaskView, cost: ActionCost, operators: Seq<usize>) -> bool {
    &&& t.wf()
    &&& t.variables.len() <= usize::MAX
    &&& forall|v: int| 0 <= v < t.variables.len() ==> #[trigger] t.variables[v].values.len() <= usize::MAX
    &&& t.axioms_converge()
    &&& supports_cover(t)
    &&& operators_in(t, operators)
    &&& is_graph(acts, t, cost)
}

/// Closing a state leaves the variables that are not derived alone.
proof fn lemma_closed(t: TaskView, state: Seq<usize>, v: int)
    requires
        t.wf(),
        state_in(t.variables, state),
        t.converges(state),
        0 <= v < state.len(),
        !t.derived(v),
    ensures
        t.closure(state)[v] == state[v],
{
    let k = choose|k: nat| t.quiet(#[trigger] t.passes(t.reset(state), k));
    lemma_reset_in(t, state);
    lemma_passes_keep(t, t.reset(state), k);
    assert(t.passes(t.reset(state), k)[v] == t.reset(state)[v]);
}

/// A fact that holds in the closure of a state on the way can be reached at no cost.
proof fn lemma_reach(
    acts: Seq<ActionView>,
    t: TaskView,
    cost: ActionCost,
    operators: Seq<usize>,
    start: Seq<usize>,
    plan: Seq<int>,
    n: nat,
    m: nat,
    fact: Fact,
) -> (more: Seq<int>)
    requires
        is_setting(acts, t, cost, operators),
        is_enabled_sequence(acts, start, plan),
        covers(t, reached(acts, start, plan), operators, n),
        m <= n <= operators.len(),
        fact_in(t.variables, fact),
        holds(t.closure(state_after(t, operators, m)), fact),
    ensures
        is_enabled_sequence(acts, start, more),
        plan_cost(acts, more) == plan_cost(acts, plan),
        forall|f: usize| reached(acts, start, plan).contains(f) ==> #[trigger] reached(acts, start, more).contains(f),
        reached(acts, start, more).contains(number(t.variables, fact) as usize),
{
    let s = state_after(t, operators, m);
    let v = fact.variable as int;
    lemma_state_after_in(t, operators, m);
    assert(t.converges(s));
    if !t.derived(v) {
        lemma_closed(t, s, v);
        assert(fact == (Fact { variable: v as usize, value: s[v] }));
        plan
    } else {
        assert(some_holds(supports_of(t, fact), s));
        let found = supports_of(t, fact);
        let i = choose|i: int| 0 <= i < found.len() && all_hold(s, #[trigger] found[i]);
        let d = lemma_derived_actions(t, t.variables.len(), fact, i);
        let a = t.operators.len() + d;
        let wanted = support_action(t, fact, found[i]);
        assert(relaxation(t, cost)[a] == wanted);
        assert(tidied(wanted, acts[a]));
        lemma_base(t, fact);
        assert forall|k: int| 0 <= k < wanted.pre.len() implies reached(acts, start, plan).contains(#[trigger] wanted.pre[k]) by {
            let f = found[i][k];
            assert(crate::supports::base_clause(t, found[i]));
            assert(fact_in(t.variables, f) && !t.derived(f.variable as int));
            assert(holds(s, f));
            assert(f == (Fact { variable: f.variable, value: state_after(t, operators, m)[f.variable as int] }));
        }
        lemma_tidied_enabled(wanted, acts[a], reached(acts, start, plan));
        lemma_extend(acts, start, plan, a);
        assert(wanted.add[0] == number(t.variables, fact) as usize);
        assert(wanted.add.contains(number(t.variables, fact) as usize));
        plan.push(a)
    }
}

/// The supports of a fact speak of variables that are not derived.
proof fn lemma_base(t: TaskView, fact: Fact)
    requires
        t.wf(),
        fact_in(t.variables, fact),
        t.variables.len() <= usize::MAX,
        forall|v: int| 0 <= v < t.variables.len() ==> #[trigger] t.variables[v].values.len() <= usize::MAX,
    ensures
        forall|i: int| 0 <= i < supports_of(t, fact).len() ==> crate::supports::base_clause(t, #[trigger] supports_of(t, fact)[i]),
{
    crate::supports::lemma_supports_base(t, fact);
}

/// The first `n` facts that hold in the closure of a state can be reached at no cost.
proof fn lemma_reach_all(
    acts: Seq<ActionView>,
    t: TaskView,
    cost: ActionCost,
    operators: Seq<usize>,
    start: Seq<usize>,
    plan: Seq<int>,
    k: nat,
    facts: Seq<Fact>,
    n: nat,
) -> (more: Seq<int>)
    requires
        is_setting(acts, t, cost, operators),
        is_enabled_sequence(acts, start, plan),
        covers(t, reached(acts, start, plan), operators, k),
        k <= operators.len(),
        n <= facts.len(),
        facts_in(t.variables, facts),
        forall|i: int| 0 <= i < facts.len() ==> occurs(t, operators, k, #[trigger] facts[i]),
    ensures
        is_enabled_sequence(acts, start, more),
        plan_cost(acts, more) == plan_cost(acts, plan),
        forall|f: usize| reached(acts, start, plan).contains(f) ==> #[trigger] reached(acts, start, more).contains(f),
        forall|i: int| 0 <= i < n ==> reached(acts, start, more).contains(number(t.variables, #[trigger] facts[i]) as usize),
    decreases n,
{
    if n == 0 {
        plan
    } else {
        let half = lemma_reach_all(acts, t, cost, operators, start, plan, k, facts, (n - 1) as nat);
        let f = facts[n - 1];
        assert(fact_in(t.variables, f));
        let m = choose|m: nat| m <= k && #[trigger] holds(t.closure(state_after(t, operators, m)), f);
        assert(covers(t, reached(acts, start, half), operators, k));
        lemma_reach(acts, t, cost, operators, start, half, k, m, f)
    }
}

proof fn lemma_assigned(before: Seq<usize>, effects: Seq<EffectView>, n: nat, v: int)
    requires
        n <= effects.len(),
        0 <= v < before.len(),
        forall|i: int| 0 <= i < effects.len() ==> (#[trigger] effects[i]).variable < before.len(),
    ensures
        assign(before, effects, n).len() == before.len(),
        assign(before, effects, n)[v] == before[v] || exists|i: int|
            0 <= i < n && (#[trigger] effects[i]).variable == v && effects[i].post == assign(before, effects, n)[v],
    decreases n,
{
    if n > 0 {
        lemma_assigned(before, effects, (n - 1) as nat, v);
        let e = effects[n - 1];
        let s = assign(before, effects, (n - 1) as nat);
        if s[v] != before[v] {
            let i = choose|i: int| 0 <= i < n - 1 && (#[trigger] effects[i]).variable == v && effects[i].post == s[v];
            assert(effects[i].post == s[v]);
        }
        if all_hold(before, e.conditions) && e.variable == v {
            assert(effects[n - 1].post == assign(before, effects, n)[v]);
        }
    }
}

proof fn lemma_initial(t: TaskView, n: nat, v: int)
    requires
        0 <= v < n <= t.variables.len(),
        t.variables.len() <= usize::MAX,
        !t.derived(v),
    ensures
        initial_facts(t, n).contains(Fact { variable: v as usize, value: t.initial[v] }),
    decreases n,
{
    let before = initial_facts(t, (n - 1) as nat);
    let all = initial_facts(t, n);
    let f = Fact { variable: v as usize, value: t.initial[v] };
    if v < n - 1 {
        lemma_initial(t, (n - 1) as nat, v);
        let i = choose|i: int| 0 <= i < before.len() && before[i] == f;
        assert(all[i] == f);
    } else {
        assert(all[all.len() - 1] == f);
    }
}

proof fn lemma_committed_fact(t: TaskView, p: PlanView, n: nat, i: int, k: int)
    requires
        0 <= i < n <= p.steps.len(),
        0 <= k < t.operators[p.steps[i].operator as int].effects.len(),
    ensures
        committed_facts(t, p, n).contains(assignments(t.operators[p.steps[i].operator as int].effects)[k]),
    decreases n,
{
    let before = committed_facts(t, p, (n - 1) as nat);
    let all = committed_facts(t, p, n);
    let f = assignments(t.operators[p.steps[i].operator as int].effects)[k];
    if i < n - 1 {
        lemma_committed_fact(t, p, (n - 1) as nat, i, k);
        let j = choose|j: int| 0 <= j < before.len() && before[j] == f;
        assert(all[j] == f);
    } else {
        assert(all[before.len() + k] == f);
    }
}

/// The facts that an estimate starts from.
spec fn start_of(t: TaskView, p: PlanView) -> Seq<usize> {
    numbers(t.variables, initial_facts(t, t.variables.len())) + numbers(t.variables, reused(t, p, true))
}

proof fn lemma_started(t: TaskView, p: PlanView, f: Fact)
    requires
        initial_facts(t, t.variables.len()).contains(f) || committed_facts(t, p, p.steps.len()).contains(f),
    ensures
        start_of(t, p).contains(number(t.variables, f) as usize),
{
    let a = initial_facts(t, t.variables.len());
    let b = committed_facts(t, p, p.steps.len());
    if a.contains(f) {
        let i = choose|i: int| 0 <= i < a.len() && a[i] == f;
        assert(start_of(t, p)[i] == number(t.variables, f) as usize);
    } else {
        let i = choose|i: int| 0 <= i < b.len() && b[i] == f;
        assert(start_of(t, p)[a.len() + i] == number(t.variables, f) as usize);
    }
}

/// The operators of an execution that are not steps of the plan, and what derives
/// facts, are a relaxed plan from the initial facts and those that the steps assign.
proof fn lemma_relaxed(
    acts: Seq<ActionView>,
    t: TaskView,
    cost: ActionCost,
    p: PlanView,
    operators: Seq<usize>,
    own: Set<int>,
    n: nat,
) -> (plan: Seq<int>)
    requires
        is_setting(acts, t, cost, operators),
        is_applicable_sequence(t, operators),
        forall|k: int| 0 <= k < operators.len() && #[trigger] own.contains(k) ==> is_committed(p, operators, k),
        forall|i: int| 0 <= i < t.operators.len() ==> operator_fits(#[trigger] t.operators[i], cost),
        n <= operators.len(),
    ensures
        is_enabled_sequence(acts, start_of(t, p), plan),
        covers(t, reached(acts, start_of(t, p), plan), operators, n),
        plan_cost(acts, plan) == additional_cost(t, cost, operators, own, n),
    decreases n,
{
    let start = start_of(t, p);
    if n == 0 {
        let plan = Seq::<int>::empty();
        assert forall|m: nat, v: int| m <= 0 && 0 <= v < t.variables.len() && !t.derived(v) implies reached(acts, start, plan).contains(
            number(t.variables, Fact { variable: v as usize, value: #[trigger] state_after(t, operators, m)[v] }) as usize,
        ) by {
            lemma_initial(t, t.variables.len(), v);
            lemma_started(t, p, Fact { variable: v as usize, value: t.initial[v] });
        }
        plan
    } else {
        let k = (n - 1) as nat;
        let before = lemma_relaxed(acts, t, cost, p, operators, own, k);
        let o = t.operators[operators[k as int] as int];
        assert(operators[k as int] < t.operators.len());
        assert(operator_in(t.variables, o) && operator_fits(o, cost));
        let s = state_after(t, operators, k);
        lemma_state_after_in(t, operators, k);
        assert(t.converges(s));
        lemma_closure_in(t, s);
        let a = operators[k as int] as int;
        let wanted = operator_action(t, cost, o);
        assert(relaxation(t, cost)[a] == wanted);
        let plan = if own.contains(k as int) {
            before
        } else {
            lemma_preconditions_in(t, o);
            let pre = preconditions_of(o);
            assert(applicable(t.operators[operators[k as int] as int], t.closure(s)));
            assert forall|i: int| 0 <= i < pre.len() implies occurs(t, operators, k, #[trigger] pre[i]) by {
                assert(holds(t.closure(state_after(t, operators, k)), pre[i]));
            }
            let half = lemma_reach_all(acts, t, cost, operators, start, before, k, pre, pre.len());
            assert(enabled(wanted, reached(acts, start, half))) by {
                assert forall|i: int| 0 <= i < wanted.pre.len() implies reached(acts, start, half).contains(#[trigger] wanted.pre[i]) by {
                    assert(wanted.pre[i] == number(t.variables, pre[i]) as usize);
                }
            }
            assert(tidied(wanted, acts[a]));
            lemma_tidied_enabled(wanted, acts[a], reached(acts, start, half));
            lemma_extend(acts, start, half, a);
            half.push(a)
        };
        assert forall|m: nat, v: int| m <= n && 0 <= v < t.variables.len() && !t.derived(v) implies reached(acts, start, plan).contains(
            number(t.variables, Fact { variable: v as usize, value: #[trigger] state_after(t, operators, m)[v] }) as usize,
        ) by {
            let f = Fact { variable: v as usize, value: state_after(t, operators, m)[v] };
            let x = number(t.variables, f) as usize;
            if m < n {
                assert(reached(acts, start, before).contains(x));
            } else {
                let closed = t.closure(s);
                assert forall|i: int| 0 <= i < o.effects.len() implies (#[trigger] o.effects[i]).variable < closed.len() by {
                    assert(effect_in(t.variables, o.effects[i]));
                }
                lemma_assigned(closed, o.effects, o.effects.len(), v);
                lemma_closed(t, s, v);
                if state_after(t, operators, n)[v] == closed[v] {
                    assert(reached(acts, start, before).contains(
                        number(t.variables, Fact { variable: v as usize, value: state_after(t, operators, k)[v] }) as usize,
                    ));
                } else {
                    let i = choose|i: int|
                        0 <= i < o.effects.len() && (#[trigger] o.effects[i]).variable == v && o.effects[i].post == state_after(t, operators, n)[v];
                    assert(assignments(o.effects)[i] == f);
                    if own.contains(k as int) {
                        assert(is_committed(p, operators, k as int));
                        let j = choose|j: int| 0 <= j < p.steps.len() && (#[trigger] p.steps[j]).operator == operators[k as int];
                        lemma_committed_fact(t, p, p.steps.len(), j, i);
                        lemma_started(t, p, f);
                        lemma_start(acts, start, plan, plan.len(), x);
                    } else {
                        assert(wanted.add[i] == x);
                        assert(wanted.add.contains(x));
                        assert(acts[a].add.contains(x));
                    }
                }
            }
        }
        plan
    }
}

/// The landmark-cut estimate with reuse is admissible. Take any operators that can be
/// executed one after the other, some of them being steps of the plan, such that every
/// open condition of the plan holds at some point: the others cost no less than the
/// estimate. The supports of derived facts have to cover the states in which the facts
/// hold.
pub proof fn reuse_estimate_is_admissible(
    lm: FdrLmCut,
    t: TaskView,
    cost: ActionCost,
    p: PlanView,
    value: u32,
    operators: Seq<usize>,
    own: Set<int>,
)
    requires
        t.wf(),
        t.variables.len() <= usize::MAX,
        forall|v: int| 0 <= v < t.variables.len() ==> #[trigger] t.variables[v].values.len() <= usize::MAX,
        t.axioms_converge(),
        supports_cover(t),
        lm.relaxes(t, cost),
        forall|i: int| 0 <= i < t.operators.len() ==> operator_fits(#[trigger] t.operators[i], cost),
        facts_in(t.variables, open_facts(p)),
        is_lmcut_estimate(lm, t, p, true, Some(value)),
        operators_in(t, operators),
        is_applicable_sequence(t, operators),
        meets_opens(t, operators, p),
        forall|k: int| 0 <= k < operators.len() && #[trigger] own.contains(k) ==> is_committed(p, operators, k),
    ensures
        value <= additional_cost(t, cost, operators, own, operators.len()),
{
    if p.opens.len() > 0 {
        let acts = lm.graph().acts();
        let start = start_of(t, p);
        let n = operators.len();
        let goals = open_facts(p);
        let before = lemma_relaxed(acts, t, cost, p, operators, own, n);
        assert forall|i: int| 0 <= i < goals.len() implies occurs(t, operators, n, #[trigger] goals[i]) by {
            assert(goals[i] == p.opens[i].condition);
        }
        let plan = lemma_reach_all(acts, t, cost, operators, start, before, n, goals, goals.len());
        let ends = numbers(t.variables, goals);
        assert(relaxed_plan(acts, start, ends, plan)) by {
            assert forall|i: int| 0 <= i < ends.len() implies facts_after(acts, start, plan, plan.len()).contains(#[trigger] ends[i]) by {
                assert(ends[i] == number(t.variables, goals[i]) as usize);
            }
        }
        let total = choose|total: nat| #[trigger] is_lm_cut_value(acts, start, ends, total) && value == capped(total);
        let cuts = choose|cuts: Seq<Cut>| #[trigger] cut_sequence(acts, start, ends, cuts) && cut_total(cuts) == total;
        lm_cut_is_admissible(acts, start, ends, cuts, plan);
    }
}

} // verus!
