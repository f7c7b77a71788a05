//! A finite-domain search that ends without a plan and without reaching a limit shows that
//! there is no solution.
use vstd::prelude::*;

use crate::fdr::{fact_in, facts_in, lemma_precondition_in, operators_have_preconditions, Fact, TaskView};
use crate::fdr_completeness::{
    is_kept, is_regular, realizes, resolving_a_condition_loses_no_solution, resolving_a_threat_loses_no_solution, solutions_realize_the_empty_plan,
    time_of,
};
use crate::fdr_estimates::{achievers_of, achieves, lemma_achievers, Achiever};
use crate::fdr_execution::{executes, linear, operators_in};
use crate::fdr_lmcut::preconditions_of;
use crate::fdr_plan::{lemma_with_open_keeps, lemma_with_opens, lemma_without, rules_out, with_opens, without, OpenCondition, PlanView, Step, Threat};
use crate::fdr_plan_laws::{
    confronting_keeps_needs, empty_plans_meet_their_needs, expanding_keeps_needs, has_condition, needs_met, ordering_keeps_needs,
    stepping_keeps_needs, supporting_keeps_needs,
};
use crate::fdr_pocl::Planner;
use crate::fdr_refine::{
    candidates_of, confrontations, flaw_children, flaw_in, lemma_open_candidates_in, lemma_threat_candidates_in, new_step_children, open_children,
    reuse_children, selects, selects_at, step_reuse, threat_candidates, threat_children, value_confrontations, with_plan, SelectedFlaw,
};
use crate::fdr_search::{is_closed_off, is_complete, is_dead, is_exhausted, is_lazy_search, is_search_result, tiers_of, Node, Outcome};
use crate::fdr_soundness::{
    are_conditions, is_grounded, is_supported, lemma_linear_schedule, plans_list_their_threats, plans_without_flaws_execute,
};
use crate::heuristics::any_reads_graph;
use crate::params::{ActionCost, Parameters, SearchAlgorithm};
use crate::plan::{GOAL_ID, INIT_ID};
use crate::supports::supports_of;

verus! {

// ---------------------------------------------------------------------------
// Sums
// ---------------------------------------------------------------------------

spec fn total(s: Seq<OpenCondition>, w: spec_fn(OpenCondition) -> nat) -> nat
    decreases s.len(),
{
    if s.len() == 0 {
        0
    } else {
        total(s.drop_last(), w) + w(s.last())
    }
}

proof fn lemma_total_update(s: Seq<OpenCondition>, w: spec_fn(OpenCondition) -> nat, i: int, x: OpenCondition)
    requires
        0 <= i < s.len(),
    ensures
        total(s.update(i, x), w) + w(s[i]) == total(s, w) + w(x),
    decreases s.len(),
{
    let u = s.update(i, x);
    if i == s.len() - 1 {
        assert(u.drop_last() == s.drop_last());
    } else {
        assert(u.drop_last() == s.drop_last().update(i, x));
        lemma_total_update(s.drop_last(), w, i, x);
    }
}

proof fn lemma_total_without(s: Seq<OpenCondition>, w: spec_fn(OpenCondition) -> nat, i: int)
    requires
        0 <= i < s.len(),
    ensures
        total(without(s, i), w) + w(s[i]) == total(s, w),
{
    let u = s.update(i, s.last());
    lemma_total_update(s, w, i, s.last());
    assert(u.last() == s.last());
}

proof fn lemma_total_with(s: Seq<OpenCondition>, w: spec_fn(OpenCondition) -> nat, consumer: usize, conditions: Seq<Fact>, n: nat, top: nat)
    requires
        n <= conditions.len(),
        forall|i: int| 0 <= i < conditions.len() ==> w(OpenCondition { consumer, condition: #[trigger] conditions[i] }) <= top,
    ensures
        total(with_opens(s, consumer, conditions, n), w) <= total(s, w) + n * top,
    decreases n,
{
    if n > 0 {
        lemma_total_with(s, w, consumer, conditions, (n - 1) as nat, top);
        let before = with_opens(s, consumer, conditions, (n - 1) as nat);
        let o = OpenCondition { consumer, condition: conditions[n - 1] };
        if !before.contains(o) {
            assert(before.push(o).drop_last() == before);
        }
        assert(w(o) <= top);
        assert((n - 1) * top + top == n * top) by (nonlinear_arith);
    }
}

spec fn power(base: nat, n: nat) -> nat
    decreases n,
{
    if n == 0 {
        1
    } else {
        base * power(base, (n - 1) as nat)
    }
}

proof fn lemma_power(base: nat, m: nat, n: nat)
    requires
        base > 0,
        m <= n,
    ensures
        0 < power(base, m) <= power(base, n),
    decreases n,
{
    if n > 0 {
        if m < n {
            lemma_power(base, m, (n - 1) as nat);
            let x = power(base, (n - 1) as nat);
            assert(x <= base * x) by (nonlinear_arith)
                requires
                    base > 0,
            ;
        } else {
            lemma_power(base, (n - 1) as nat, (n - 1) as nat);
            let x = power(base, (n - 1) as nat);
            assert(0 < base * x) by (nonlinear_arith)
                requires
                    base > 0,
                    x > 0,
            ;
        }
    }
}

/// Fewer than `base` items of a power weigh less than one of the next.
proof fn lemma_lighter(base: nat, k: nat, n: nat)
    requires
        k < base,
    ensures
        k * power(base, n) < power(base, n + 1),
{
    lemma_power(base, n, n);
    let x = power(base, n);
    assert(k * x < base * x) by (nonlinear_arith)
        requires
            k < base,
            x > 0,
    ;
}

/// What an open condition weighs: the more, the later it is needed, and a derived one more
/// than a base fact.
spec fn weight(t: TaskView, base: nat, ops: Seq<usize>, pos: spec_fn(int) -> int) -> spec_fn(OpenCondition) -> nat {
    |o: OpenCondition|
        power(
            base,
            (2 * time_of(ops, pos, o.consumer as int) + (if t.derived(o.condition.variable as int) {
                2int
            } else {
                1int
            })) as nat,
        )
}

/// How many of the first `n` effects of a step are not disarmed.
spec fn armed_effects(t: TaskView, p: PlanView, id: int, n: nat) -> nat
    decreases n,
{
    if n == 0 {
        0
    } else {
        armed_effects(t, p, id, (n - 1) as nat) + (if p.disarmed(id as usize, p.effects(t, id)[n - 1].conditions) {
            0nat
        } else {
            1nat
        })
    }
}

/// How many effects of the first `n` steps are not disarmed.
spec fn armed(t: TaskView, p: PlanView, n: nat) -> nat
    decreases n,
{
    if n == 0 {
        0
    } else {
        armed(t, p, (n - 1) as nat) + armed_effects(t, p, n as int, p.effects(t, n as int).len())
    }
}

proof fn lemma_armed_effects(t: TaskView, p: PlanView, q: PlanView, id: int, n: nat)
    requires
        forall|step: usize, fact: Fact| p.committed(step, fact) ==> #[trigger] q.committed(step, fact),
        q.effects(t, id) == p.effects(t, id),
        n <= p.effects(t, id).len(),
    ensures
        armed_effects(t, q, id, n) <= armed_effects(t, p, id, n),
        (exists|e: int|
            0 <= e < n && q.disarmed(id as usize, (#[trigger] p.effects(t, id)[e]).conditions) && !p.disarmed(
                id as usize,
                p.effects(t, id)[e].conditions,
            )) ==> armed_effects(t, q, id, n) < armed_effects(t, p, id, n),
    decreases n,
{
    if n > 0 {
        lemma_armed_effects(t, p, q, id, (n - 1) as nat);
        let conditions = p.effects(t, id)[n - 1].conditions;
        if p.disarmed(id as usize, conditions) {
            let k = choose|k: int| 0 <= k < conditions.len() && p.committed(id as usize, #[trigger] conditions[k]);
            assert(q.committed(id as usize, conditions[k]));
        }
    }
}

proof fn lemma_armed(t: TaskView, p: PlanView, q: PlanView, n: nat)
    requires
        forall|step: usize, fact: Fact| p.committed(step, fact) ==> #[trigger] q.committed(step, fact),
        q.steps == p.steps,
        n <= p.steps.len(),
    ensures
        armed(t, q, n) <= armed(t, p, n),
        forall|id: int, e: int|
            1 <= id <= n && 0 <= e < p.effects(t, id).len() && q.disarmed(id as usize, (#[trigger] p.effects(t, id)[e]).conditions) && !p.disarmed(
                id as usize,
                p.effects(t, id)[e].conditions,
            ) ==> armed(t, q, n) < armed(t, p, n),
    decreases n,
{
    if n > 0 {
        lemma_armed(t, p, q, (n - 1) as nat);
        lemma_armed_effects(t, p, q, n as int, p.effects(t, n as int).len());
    }
}

/// How many of the pairs of a step and the first `n` steps are not ordered.
spec fn loose_after(order: Set<(int, int)>, a: int, n: nat) -> nat
    decreases n,
{
    if n == 0 {
        0
    } else {
        loose_after(order, a, (n - 1) as nat) + (if order.contains((a, n as int)) {
            0nat
        } else {
            1nat
        })
    }
}

spec fn loose(order: Set<(int, int)>, m: nat, n: nat) -> nat
    decreases m,
{
    if m == 0 {
        0
    } else {
        loose(order, (m - 1) as nat, n) + loose_after(order, m as int, n)
    }
}

proof fn lemma_loose_after(a: Set<(int, int)>, b: Set<(int, int)>, i: int, n: nat)
    requires
        a.subset_of(b),
    ensures
        loose_after(b, i, n) <= loose_after(a, i, n),
        forall|j: int| 1 <= j <= n && #[trigger] b.contains((i, j)) && !a.contains((i, j)) ==> loose_after(b, i, n) < loose_after(a, i, n),
    decreases n,
{
    if n > 0 {
        lemma_loose_after(a, b, i, (n - 1) as nat);
    }
}

proof fn lemma_loose(a: Set<(int, int)>, b: Set<(int, int)>, m: nat, n: nat)
    requires
        a.subset_of(b),
    ensures
        loose(b, m, n) <= loose(a, m, n),
        forall|i: int, j: int| 1 <= i <= m && 1 <= j <= n && #[trigger] b.contains((i, j)) && !a.contains((i, j)) ==> loose(b, m, n) < loose(a, m, n),
    decreases m,
{
    if m > 0 {
        lemma_loose(a, b, (m - 1) as nat, n);
        lemma_loose_after(a, b, m as int, n);
    }
}

/// Numbers that are different and below a bound are not more than the bound.
proof fn lemma_few(f: spec_fn(int) -> int, n: nat, m: nat)
    requires
        forall|i: int| 1 <= i <= n ==> 0 <= #[trigger] f(i) < m,
        forall|i: int, j: int| 1 <= i <= n && 1 <= j <= n && i != j ==> #[trigger] f(i) != #[trigger] f(j),
    ensures
        n <= m,
    decreases m,
{
    if n > 0 {
        assert(0 <= f(1) < m);
        if exists|i: int| 1 <= i <= n && #[trigger] f(i) == m - 1 {
            let k = choose|i: int| 1 <= i <= n && #[trigger] f(i) == m - 1;
            let g = |i: int|
                if i == k {
                    f(n as int)
                } else {
                    f(i)
                };
            assert forall|i: int| 1 <= i <= n - 1 implies 0 <= #[trigger] g(i) < m - 1 by {
                if i == k {
                    assert(f(n as int) != f(k));
                } else {
                    assert(f(i) != f(k));
                }
            }
            assert forall|i: int, j: int| 1 <= i <= n - 1 && 1 <= j <= n - 1 && i != j implies #[trigger] g(i) != #[trigger] g(j) by {
                assert(f(i) != f(j));
                if i == k {
                    assert(f(n as int) != f(j));
                }
                if j == k {
                    assert(f(n as int) != f(i));
                }
            }
            lemma_few(g, (n - 1) as nat, (m - 1) as nat);
        } else {
            lemma_few(f, n, (m - 1) as nat);
        }
    }
}

proof fn lemma_steps_fit(t: TaskView, ops: Seq<usize>, pos: spec_fn(int) -> int, p: PlanView)
    requires
        realizes(t, ops, pos, p),
    ensures
        p.steps.len() <= ops.len(),
{
    assert forall|i: int| 1 <= i <= p.steps.len() implies 0 <= #[trigger] pos(i) < ops.len() by {
        assert(p.is_step(i));
    }
    assert forall|i: int, j: int| 1 <= i <= p.steps.len() && 1 <= j <= p.steps.len() && i != j implies #[trigger] pos(i) != #[trigger] pos(j) by {
        assert(p.is_step(i) && p.is_step(j));
    }
    lemma_few(pos, p.steps.len(), ops.len());
}

// ---------------------------------------------------------------------------
// A bound on what a refinement adds
// ---------------------------------------------------------------------------

/// Effects have fewer conditions, and supports fewer facts.
spec fn is_bound(t: TaskView, base: nat) -> bool {
    &&& base > 0
    &&& forall|o: int, e: int|
        0 <= o < t.operators.len() && 0 <= e < t.operators[o].effects.len() ==> (#[trigger] t.operators[o].effects[e]).conditions.len() < base
    &&& forall|fact: Fact, c: int|
        fact_in(t.variables, fact) && 0 <= c < supports_of(t, fact).len() ==> (#[trigger] supports_of(t, fact)[c]).len() < base
}

proof fn lemma_effects_bound(t: TaskView, o: int, n: nat) -> (base: nat)
    requires
        0 <= o < t.operators.len(),
        n <= t.operators[o].effects.len(),
    ensures
        forall|e: int| 0 <= e < n ==> (#[trigger] t.operators[o].effects[e]).conditions.len() < base,
    decreases n,
{
    if n == 0 {
        0
    } else {
        let b = lemma_effects_bound(t, o, (n - 1) as nat);
        b + t.operators[o].effects[n - 1].conditions.len() + 1
    }
}

proof fn lemma_operators_bound(t: TaskView, n: nat) -> (base: nat)
    requires
        n <= t.operators.len(),
    ensures
        forall|o: int, e: int|
            0 <= o < n && 0 <= e < t.operators[o].effects.len() ==> (#[trigger] t.operators[o].effects[e]).conditions.len() < base,
    decreases n,
{
    if n == 0 {
        0
    } else {
        let b = lemma_operators_bound(t, (n - 1) as nat);
        let c = lemma_effects_bound(t, n - 1, t.operators[n - 1].effects.len());
        b + c
    }
}

proof fn lemma_clauses_bound(l: Seq<Seq<Fact>>, n: nat) -> (base: nat)
    requires
        n <= l.len(),
    ensures
        forall|c: int| 0 <= c < n ==> (#[trigger] l[c]).len() < base,
    decreases n,
{
    if n == 0 {
        0
    } else {
        let b = lemma_clauses_bound(l, (n - 1) as nat);
        b + l[n - 1].len() + 1
    }
}

proof fn lemma_values_bound(t: TaskView, v: usize, n: nat) -> (base: nat)
    requires
        n <= usize::MAX,
    ensures
        forall|fact: Fact, c: int|
            fact.variable == v && fact.value < n && 0 <= c < supports_of(t, fact).len() ==> (#[trigger] supports_of(t, fact)[c]).len() < base,
    decreases n,
{
    if n == 0 {
        0
    } else {
        let b = lemma_values_bound(t, v, (n - 1) as nat);
        let last = Fact { variable: v, value: (n - 1) as usize };
        let c = lemma_clauses_bound(supports_of(t, last), supports_of(t, last).len());
        assert forall|fact: Fact, k: int|
            fact.variable == v && fact.value < n && 0 <= k < supports_of(t, fact).len() implies (#[trigger] supports_of(t, fact)[k]).len() < b + c by {
            if fact.value == n - 1 {
                assert(fact == last);
            }
        }
        b + c
    }
}

proof fn lemma_variables_bound(t: TaskView, n: nat) -> (base: nat)
    requires
        n <= t.variables.len() <= usize::MAX,
        forall|v: int| 0 <= v < t.variables.len() ==> #[trigger] t.variables[v].values.len() <= usize::MAX,
    ensures
        forall|fact: Fact, c: int|
            fact_in(t.variables, fact) && fact.variable < n && 0 <= c < supports_of(t, fact).len() ==> (#[trigger] supports_of(t, fact)[c]).len() < base,
    decreases n,
{
    if n == 0 {
        0
    } else {
        let b = lemma_variables_bound(t, (n - 1) as nat);
        let c = lemma_values_bound(t, (n - 1) as usize, t.variables[n - 1].values.len());
        b + c
    }
}

proof fn lemma_bound(t: TaskView, layer: spec_fn(int) -> nat) -> (base: nat)
    requires
        is_regular(t, layer),
    ensures
        is_bound(t, base),
{
    let a = lemma_operators_bound(t, t.operators.len());
    let b = lemma_variables_bound(t, t.variables.len());
    a + b + 1
}

// ---------------------------------------------------------------------------
// Children
// ---------------------------------------------------------------------------

/// Whether a realized plan is nearer to an end than another: with more steps; or as many,
/// but fewer effects that are not disarmed; or as many, but less to do; or as much, but
/// fewer pairs that are not ordered.
spec fn is_nearer(
    t: TaskView,
    base: nat,
    ops: Seq<usize>,
    pos: spec_fn(int) -> int,
    p: PlanView,
    now: spec_fn(int) -> int,
    q: PlanView,
) -> bool {
    ||| p.steps.len() < q.steps.len()
    ||| {
        &&& p.steps.len() == q.steps.len()
        &&& {
            ||| armed(t, q, q.steps.len()) < armed(t, p, p.steps.len())
            ||| {
                &&& armed(t, q, q.steps.len()) == armed(t, p, p.steps.len())
                &&& {
                    ||| total(q.opens, weight(t, base, ops, now)) < total(p.opens, weight(t, base, ops, pos))
                    ||| {
                        &&& total(q.opens, weight(t, base, ops, now)) == total(p.opens, weight(t, base, ops, pos))
                        &&& loose(q.order, q.steps.len(), q.steps.len()) < loose(p.order, p.steps.len(), p.steps.len())
                    }
                }
            }
        }
    }
}

/// A realized refinement that keeps all conditions of a grounded plan is grounded.
proof fn lemma_grounded(t: TaskView, ops: Seq<usize>, pos: spec_fn(int) -> int, p: PlanView, q: PlanView)
    requires
        is_grounded(t, p),
        q.wf(t),
        needs_met(t, q),
        realizes(t, ops, pos, q),
        forall|c: usize, f: Fact| has_condition(p, c, f) ==> #[trigger] has_condition(q, c, f),
        p.expanded.len() <= q.expanded.len(),
        forall|i: int| 0 <= i < p.expanded.len() ==> #[trigger] q.expanded[i] == p.expanded[i],
        forall|i: int| p.expanded.len() <= i < q.expanded.len() ==> is_supported(t, q, #[trigger] q.expanded[i]),
    ensures
        is_grounded(t, q),
{
    assert forall|i: int| 0 <= i < q.expanded.len() implies is_supported(t, q, #[trigger] q.expanded[i]) by {
        if i < p.expanded.len() {
            let o = p.expanded[i];
            assert(is_supported(t, p, p.expanded[i]));
            let c = choose|c: int|
                0 <= c < supports_of(t, o.condition).len() && are_conditions(p, o.consumer, #[trigger] supports_of(t, o.condition)[c]);
            assert(are_conditions(q, o.consumer, supports_of(t, o.condition)[c]));
        }
    }
    assert forall|i: int| 0 <= i < q.links.len() implies !t.derived((#[trigger] q.links[i]).condition.variable as int) by {
        assert(q.links.contains(q.links[i]));
        assert(is_kept(t, ops, pos, q.links[i]));
    }
}

/// The conditions of a plan stay, where the open condition that a refinement takes is
/// replaced or linked.
proof fn lemma_conditions(p: PlanView, q: PlanView, at: int)
    requires
        0 <= at < p.opens.len(),
        forall|x: OpenCondition| p.opens.contains(x) ==> x == p.opens[at] || #[trigger] q.opens.contains(x),
        p.expanded.len() <= q.expanded.len(),
        forall|i: int| 0 <= i < p.expanded.len() ==> #[trigger] q.expanded[i] == p.expanded[i],
        p.links.len() <= q.links.len(),
        forall|i: int| 0 <= i < p.links.len() ==> #[trigger] q.links[i] == p.links[i],
        has_condition(q, p.opens[at].consumer, p.opens[at].condition),
    ensures
        forall|c: usize, f: Fact| has_condition(p, c, f) ==> #[trigger] has_condition(q, c, f),
{
    assert forall|c: usize, f: Fact| has_condition(p, c, f) implies #[trigger] has_condition(q, c, f) by {
        let x = OpenCondition { consumer: c, condition: f };
        if p.opens.contains(x) {
            if x != p.opens[at] {
                assert(q.opens.contains(x));
            }
        } else if p.expanded.contains(x) {
            let i = choose|i: int| 0 <= i < p.expanded.len() && p.expanded[i] == x;
            assert(q.expanded[i] == x);
        } else {
            let k = choose|k: int| 0 <= k < p.links.len() && (#[trigger] p.links[k]).consumer == c && p.links[k].condition == f;
            assert(q.links[k] == p.links[k]);
        }
    }
}

proof fn lemma_of_plan(list: Seq<PlanView>, plan: Option<PlanView>, q: PlanView)
    requires
        with_plan(list, plan).contains(q),
    ensures
        list.contains(q) || plan == Some(q),
{
    let i = choose|i: int| 0 <= i < with_plan(list, plan).len() && with_plan(list, plan)[i] == q;
    if i < list.len() {
        assert(list[i] == q);
    }
}

proof fn lemma_of_values(p: PlanView, step: usize, fact: Fact, n: nat, list: Seq<PlanView>, q: PlanView) -> (value: usize)
    requires
        n <= usize::MAX,
        value_confrontations(p, step, fact, n, list).contains(q),
    ensures
        list.contains(q) || (value < n && value != fact.value && q == p.confronted(step, Fact { variable: fact.variable, value })),
    decreases n,
{
    if n == 0 {
        0
    } else {
        let before = value_confrontations(p, step, fact, (n - 1) as nat, list);
        let all = value_confrontations(p, step, fact, n, list);
        let i = choose|i: int| 0 <= i < all.len() && all[i] == q;
        if i < before.len() {
            assert(before[i] == q);
            lemma_of_values(p, step, fact, (n - 1) as nat, list, q)
        } else {
            (n - 1) as usize
        }
    }
}

proof fn lemma_of_confrontations(t: TaskView, p: PlanView, step: usize, conditions: Seq<Fact>, n: nat, q: PlanView) -> (jv: (int, usize))
    requires
        n <= conditions.len(),
        facts_in(t.variables, conditions),
        forall|v: int| 0 <= v < t.variables.len() ==> #[trigger] t.variables[v].values.len() <= usize::MAX,
        confrontations(t, p, step, conditions, n).contains(q),
    ensures
        0 <= jv.0 < n,
        jv.1 < t.variables[conditions[jv.0].variable as int].values.len(),
        jv.1 != conditions[jv.0].value,
        q == p.confronted(step, Fact { variable: conditions[jv.0].variable, value: jv.1 }),
    decreases n,
{
    let before = confrontations(t, p, step, conditions, (n - 1) as nat);
    assert(fact_in(t.variables, conditions[n - 1]));
    let value = lemma_of_values(
        p,
        step,
        conditions[n - 1],
        t.variables[conditions[n - 1].variable as int].values.len(),
        before,
        q,
    );
    if before.contains(q) {
        lemma_of_confrontations(t, p, step, conditions, (n - 1) as nat, q)
    } else {
        (n - 1, value)
    }
}

/// Committing the step of a threat disarms its effect.
proof fn lemma_confronted_child(
    t: TaskView,
    layer: spec_fn(int) -> nat,
    base: nat,
    ops: Seq<usize>,
    pos: spec_fn(int) -> int,
    p: PlanView,
    threat: Threat,
    j: int,
    value: usize,
    q: PlanView,
)
    requires
        is_regular(t, layer),
        is_grounded(t, p),
        p.threatens(t, threat),
        realizes(t, ops, pos, q),
        0 <= j < p.effects(t, threat.step as int)[threat.effect as int].conditions.len(),
        value != p.effects(t, threat.step as int)[threat.effect as int].conditions[j].value,
        value < t.variables[p.effects(t, threat.step as int)[threat.effect as int].conditions[j].variable as int].values.len(),
        fact_in(t.variables, p.effects(t, threat.step as int)[threat.effect as int].conditions[j]),
        q == p.confronted(
            threat.step,
            Fact { variable: p.effects(t, threat.step as int)[threat.effect as int].conditions[j].variable, value },
        ),
    ensures
        is_grounded(t, q),
        is_nearer(t, base, ops, pos, p, pos, q),
{
    let conditions = p.effects(t, threat.step as int)[threat.effect as int].conditions;
    let fact = Fact { variable: conditions[j].variable, value };
    crate::fdr_plan::lemma_confronted(t, p, threat.step, fact);
    confronting_keeps_needs(t, p, threat.step, fact);
    lemma_with_open_keeps(p.opens, OpenCondition { consumer: threat.step, condition: fact });
    assert forall|c: usize, f: Fact| has_condition(p, c, f) implies #[trigger] has_condition(q, c, f) by {
        if p.opens.contains(OpenCondition { consumer: c, condition: f }) {
            assert(q.opens.contains(OpenCondition { consumer: c, condition: f }));
        }
    }
    lemma_grounded(t, ops, pos, p, q);
    lemma_armed(t, p, q, p.steps.len());
    assert(rules_out(fact, conditions[j]));
    assert(q.committed(threat.step, conditions[j]));
    assert(q.disarmed(threat.step, conditions));
    let e = p.effects(t, threat.step as int)[threat.effect as int];
    assert(!p.disarmed(threat.step, e.conditions));
}

/// Ordering the step of a threat out of the way orders a pair that was not.
proof fn lemma_ordered_child(
    t: TaskView,
    layer: spec_fn(int) -> nat,
    base: nat,
    ops: Seq<usize>,
    pos: spec_fn(int) -> int,
    p: PlanView,
    i: int,
    j: int,
    q: PlanView,
)
    requires
        is_regular(t, layer),
        is_grounded(t, p),
        realizes(t, ops, pos, q),
        p.is_step(i),
        p.is_step(j),
        !p.precedes(i, j),
        p.ordered_with(i, j) == Some(q),
    ensures
        is_grounded(t, q),
        is_nearer(t, base, ops, pos, p, pos, q),
{
    crate::fdr_plan::lemma_ordered_with(t, p, i, j);
    ordering_keeps_needs(t, p, i, j);
    assert forall|c: usize, f: Fact| has_condition(p, c, f) implies #[trigger] has_condition(q, c, f) by {}
    lemma_grounded(t, ops, pos, p, q);
    lemma_armed(t, p, q, p.steps.len());
    lemma_loose(p.order, q.order, p.steps.len(), p.steps.len());
    assert(q.order.contains((i, j)));
    assert(!p.order.contains((i, j)));
}

proof fn lemma_threat_child(
    t: TaskView,
    layer: spec_fn(int) -> nat,
    base: nat,
    ops: Seq<usize>,
    pos: spec_fn(int) -> int,
    p: PlanView,
    threat: Threat,
    q: PlanView,
)
    requires
        is_regular(t, layer),
        is_grounded(t, p),
        p.threatens(t, threat),
        realizes(t, ops, pos, q),
        threat_children(t, p, threat).contains(q),
    ensures
        is_grounded(t, q),
        is_nearer(t, base, ops, pos, p, pos, q),
{
    let link = p.links[threat.link as int];
    let s = threat.step as int;
    let op = t.operators[p.steps[s - 1].operator as int];
    let e = op.effects[threat.effect as int];
    let conditions = e.conditions;
    assert(p.link_in(t, link));
    assert(p.steps[s - 1].operator < t.operators.len());
    assert(crate::fdr::operator_in(t.variables, op));
    assert(crate::fdr::effect_in(t.variables, e));
    let confronted = confrontations(t, p, threat.step, conditions, conditions.len());
    let promotion = p.ordered_with(link.consumer as int, s);
    let demotion = p.ordered_with(s, link.producer as int);
    let promoted = if link.consumer == GOAL_ID {
        confronted
    } else {
        with_plan(confronted, promotion)
    };
    if link.producer != INIT_ID {
        lemma_of_plan(promoted, demotion, q);
    }
    if link.producer != INIT_ID && demotion == Some(q) {
        lemma_ordered_child(t, layer, base, ops, pos, p, s, link.producer as int, q);
    } else {
        if link.consumer != GOAL_ID {
            lemma_of_plan(confronted, promotion, q);
        }
        if link.consumer != GOAL_ID && promotion == Some(q) {
            lemma_ordered_child(t, layer, base, ops, pos, p, link.consumer as int, s, q);
        } else {
            let (j, value) = lemma_of_confrontations(t, p, threat.step, conditions, conditions.len(), q);
            assert(fact_in(t.variables, conditions[j]));
            lemma_confronted_child(t, layer, base, ops, pos, p, threat, j, value, q);
        }
    }
}

proof fn lemma_total_same(s: Seq<OpenCondition>, v: spec_fn(OpenCondition) -> nat, w: spec_fn(OpenCondition) -> nat)
    requires
        forall|i: int| 0 <= i < s.len() ==> v(#[trigger] s[i]) == w(s[i]),
    ensures
        total(s, v) == total(s, w),
    decreases s.len(),
{
    if s.len() > 0 {
        assert forall|i: int| 0 <= i < s.drop_last().len() implies v(#[trigger] s.drop_last()[i]) == w(s.drop_last()[i]) by {
            assert(s.drop_last()[i] == s[i]);
        }
        lemma_total_same(s.drop_last(), v, w);
        assert(v(s[s.len() - 1]) == w(s[s.len() - 1]));
    }
}

/// The open conditions of a plan weigh the same where its steps happen at the same
/// positions.
proof fn lemma_same_weight(t: TaskView, base: nat, ops: Seq<usize>, pos: spec_fn(int) -> int, now: spec_fn(int) -> int, p: PlanView, s: Seq<OpenCondition>)
    requires
        forall|id: int| #[trigger] p.is_step(id) ==> now(id) == pos(id),
        forall|i: int| 0 <= i < s.len() ==> p.open_in(t, #[trigger] s[i]),
    ensures
        total(s, weight(t, base, ops, now)) == total(s, weight(t, base, ops, pos)),
{
    let v = weight(t, base, ops, now);
    let w = weight(t, base, ops, pos);
    assert forall|i: int| 0 <= i < s.len() implies v(#[trigger] s[i]) == w(s[i]) by {
        assert(p.open_in(t, s[i]));
        if s[i].consumer != GOAL_ID {
            assert(p.is_step(s[i].consumer as int));
        }
    }
    lemma_total_same(s, v, w);
}

/// Taking an open condition and adding fewer than `base` lighter ones leaves less to do.
proof fn lemma_less_to_do(
    t: TaskView,
    base: nat,
    ops: Seq<usize>,
    pos: spec_fn(int) -> int,
    p: PlanView,
    at: int,
    consumer: usize,
    conditions: Seq<Fact>,
    n: nat,
)
    requires
        base > 0,
        0 <= at < p.opens.len(),
        conditions.len() < base,
        weight(t, base, ops, pos)(p.opens[at]) == power(base, n + 1),
        forall|i: int|
            0 <= i < conditions.len() ==> weight(t, base, ops, pos)(OpenCondition { consumer, condition: #[trigger] conditions[i] }) <= power(base, n),
    ensures
        total(with_opens(without(p.opens, at), consumer, conditions, conditions.len()), weight(t, base, ops, pos)) < total(
            p.opens,
            weight(t, base, ops, pos),
        ),
{
    let w = weight(t, base, ops, pos);
    lemma_total_without(p.opens, w, at);
    lemma_total_with(without(p.opens, at), w, consumer, conditions, conditions.len(), power(base, n));
    lemma_lighter(base, conditions.len(), n);
}

proof fn lemma_expanded_child(
    t: TaskView,
    layer: spec_fn(int) -> nat,
    base: nat,
    ops: Seq<usize>,
    pos: spec_fn(int) -> int,
    now: spec_fn(int) -> int,
    p: PlanView,
    at: int,
    c: int,
    q: PlanView,
)
    requires
        is_regular(t, layer),
        is_bound(t, base),
        is_grounded(t, p),
        realizes(t, ops, pos, p),
        realizes(t, ops, now, q),
        forall|id: int| #[trigger] p.is_step(id) ==> now(id) == pos(id),
        0 <= at < p.opens.len(),
        t.derived(p.opens[at].condition.variable as int),
        0 <= c < supports_of(t, p.opens[at].condition).len(),
        q == p.expanded_to(at, supports_of(t, p.opens[at].condition)[c]),
    ensures
        is_grounded(t, q),
        is_nearer(t, base, ops, pos, p, now, q),
{
    let open = p.opens[at];
    let support = supports_of(t, open.condition)[c];
    assert(p.open_in(t, open));
    crate::supports::lemma_supports_base(t, open.condition);
    assert(crate::supports::base_clause(t, support));
    crate::fdr_plan::lemma_expanded(t, p, at, support);
    expanding_keeps_needs(t, p, at, support);
    lemma_without(p.opens, at);
    lemma_with_opens(without(p.opens, at), open.consumer, support, support.len());
    let m = p.expanded.len() as int;
    assert(q.expanded[m] == open);
    assert(has_condition(q, open.consumer, open.condition)) by {
        assert(q.expanded.contains(OpenCondition { consumer: open.consumer, condition: open.condition }));
    }
    lemma_conditions(p, q, at);
    assert(are_conditions(q, open.consumer, support)) by {
        assert forall|j: int| 0 <= j < support.len() implies has_condition(q, open.consumer, #[trigger] support[j]) by {
            assert(q.opens.contains(OpenCondition { consumer: open.consumer, condition: support[j] }));
        }
    }
    assert(is_supported(t, q, open));
    lemma_grounded(t, ops, now, p, q);
    lemma_armed(t, p, q, p.steps.len());
    lemma_same_weight(t, base, ops, pos, now, p, q.opens);
    let tau = time_of(ops, pos, open.consumer as int);
    assert(tau >= 0) by {
        if open.consumer != GOAL_ID {
            assert(p.is_step(open.consumer as int));
        }
    }
    let w = weight(t, base, ops, pos);
    assert forall|i: int| 0 <= i < support.len() implies w(OpenCondition { consumer: open.consumer, condition: #[trigger] support[i] }) <= power(
        base,
        (2 * tau + 1) as nat,
    ) by {}
    assert(support.len() < base);
    lemma_less_to_do(t, base, ops, pos, p, at, open.consumer, support, (2 * tau + 1) as nat);
}

proof fn lemma_supported_child(
    t: TaskView,
    layer: spec_fn(int) -> nat,
    base: nat,
    ops: Seq<usize>,
    pos: spec_fn(int) -> int,
    now: spec_fn(int) -> int,
    p: PlanView,
    at: int,
    producer: usize,
    effect: Option<usize>,
    conditions: Seq<Fact>,
    q: PlanView,
)
    requires
        is_regular(t, layer),
        base > 0,
        is_grounded(t, p),
        realizes(t, ops, pos, p),
        realizes(t, ops, now, q),
        forall|id: int| #[trigger] p.is_step(id) ==> now(id) == pos(id),
        0 <= at < p.opens.len(),
        !t.derived(p.opens[at].condition.variable as int),
        crate::fdr_plan::produces(t, p, producer, effect, p.opens[at].condition),
        conditions.len() < base,
        facts_in(t.variables, conditions),
        effect is None ==> conditions.len() == 0,
        effect is Some ==> conditions == p.effects(t, producer as int)[effect->0 as int].conditions,
        p.supported(at, producer, effect, conditions) == Some(q),
    ensures
        is_grounded(t, q),
        is_nearer(t, base, ops, pos, p, now, q),
{
    let open = p.opens[at];
    assert(p.open_in(t, open));
    crate::fdr_plan::lemma_supported(t, p, at, producer, effect, conditions);
    supporting_keeps_needs(t, p, at, producer, effect, conditions);
    lemma_without(p.opens, at);
    lemma_with_opens(without(p.opens, at), producer, conditions, conditions.len());
    let m = p.links.len() as int;
    let link = q.links[m];
    assert(link.consumer == open.consumer && link.condition == open.condition);
    lemma_conditions(p, q, at);
    lemma_grounded(t, ops, now, p, q);
    lemma_armed(t, p, q, p.steps.len());
    assert forall|i: int| 0 <= i < q.opens.len() implies p.open_in(t, #[trigger] q.opens[i]) by {
        assert(q.open_in(t, q.opens[i]));
    }
    lemma_same_weight(t, base, ops, pos, now, p, q.opens);
    let tau = time_of(ops, pos, open.consumer as int);
    assert(tau >= 0) by {
        if open.consumer != GOAL_ID {
            assert(p.is_step(open.consumer as int));
        }
    }
    assert(q.links.contains(link));
    assert(is_kept(t, ops, now, link));
    let w = weight(t, base, ops, pos);
    assert forall|i: int| 0 <= i < conditions.len() implies w(OpenCondition { consumer: producer, condition: #[trigger] conditions[i] }) <= power(
        base,
        (2 * tau) as nat,
    ) by {
        assert(p.is_step(producer as int));
        let from = time_of(ops, pos, producer as int);
        assert(0 <= from < tau) by {
            assert(now(producer as int) == pos(producer as int));
            if open.consumer != GOAL_ID {
                assert(p.is_step(open.consumer as int));
            }
        }
        lemma_power(base, (2 * from + 1) as nat, (2 * tau) as nat);
        lemma_power(base, (2 * from + 2) as nat, (2 * tau) as nat);
    }
    lemma_less_to_do(t, base, ops, pos, p, at, producer, conditions, (2 * tau) as nat);
}

proof fn lemma_stepped_child(
    t: TaskView,
    layer: spec_fn(int) -> nat,
    cost: ActionCost,
    base: nat,
    ops: Seq<usize>,
    pos: spec_fn(int) -> int,
    now: spec_fn(int) -> int,
    p: PlanView,
    at: int,
    a: Achiever,
    q: PlanView,
)
    requires
        is_regular(t, layer),
        is_grounded(t, p),
        realizes(t, ops, now, q),
        0 <= at < p.opens.len(),
        achieves(t, p.opens[at].condition, a),
        p.stepped(t, cost, at, a.operator, a.effect) == Some(q),
    ensures
        is_grounded(t, q),
        is_nearer(t, base, ops, pos, p, now, q),
{
    let open = p.opens[at];
    let o = t.operators[a.operator as int];
    let pre = preconditions_of(o);
    let conditions = o.effects[a.effect as int].conditions;
    let id = (p.steps.len() + 1) as usize;
    assert(crate::fdr::operator_in(t.variables, o));
    operators_have_preconditions(t.variables, o);
    lemma_precondition_in(t.variables, o, pre);
    crate::fdr_plan::lemma_stepped(t, cost, p, at, a.operator, a.effect);
    stepping_keeps_needs(t, cost, p, at, a.operator, a.effect);
    let first = without(p.opens, at);
    let mid = with_opens(first, id, pre, pre.len());
    lemma_without(p.opens, at);
    lemma_with_opens(first, id, pre, pre.len());
    lemma_with_opens(mid, id, conditions, conditions.len());
    assert forall|x: OpenCondition| p.opens.contains(x) implies x == p.opens[at] || #[trigger] q.opens.contains(x) by {
        if x != p.opens[at] {
            assert(first.contains(x));
            assert(mid.contains(x));
        }
    }
    let m = p.links.len() as int;
    assert(q.links[m].consumer == open.consumer && q.links[m].condition == open.condition);
    lemma_conditions(p, q, at);
    lemma_grounded(t, ops, now, p, q);
}

proof fn lemma_of_new_steps(t: TaskView, cost: ActionCost, p: PlanView, at: int, achievers: Seq<Achiever>, n: nat, q: PlanView) -> (i: int)
    requires
        new_step_children(t, cost, p, at, achievers, n).contains(q),
    ensures
        0 <= i < n,
        p.stepped(t, cost, at, achievers[i].operator, achievers[i].effect) == Some(q),
    decreases n,
{
    let before = new_step_children(t, cost, p, at, achievers, (n - 1) as nat);
    lemma_of_plan(before, p.stepped(t, cost, at, achievers[n - 1].operator, achievers[n - 1].effect), q);
    if before.contains(q) {
        lemma_of_new_steps(t, cost, p, at, achievers, (n - 1) as nat, q)
    } else {
        n - 1
    }
}

/// Whether a plan has an open condition supported by an effect of one of its steps.
spec fn is_reuse(t: TaskView, p: PlanView, at: int, step: Step, a: Achiever, q: PlanView) -> bool {
    a.operator == step.operator && p.supported(
        at,
        step.id,
        Some(a.effect),
        t.operators[a.operator as int].effects[a.effect as int].conditions,
    ) == Some(q)
}

proof fn lemma_of_step_reuse(t: TaskView, p: PlanView, at: int, step: Step, achievers: Seq<Achiever>, n: nat, list: Seq<PlanView>, q: PlanView) -> (i: int)
    requires
        step_reuse(t, p, at, step, achievers, n, list).contains(q),
        !list.contains(q),
    ensures
        0 <= i < n,
        is_reuse(t, p, at, step, achievers[i], q),
    decreases n,
{
    let before = step_reuse(t, p, at, step, achievers, (n - 1) as nat, list);
    let a = achievers[n - 1];
    if a.operator == step.operator {
        lemma_of_plan(
            before,
            p.supported(at, step.id, Some(a.effect), t.operators[a.operator as int].effects[a.effect as int].conditions),
            q,
        );
    }
    if before.contains(q) {
        lemma_of_step_reuse(t, p, at, step, achievers, (n - 1) as nat, list, q)
    } else {
        n - 1
    }
}

proof fn lemma_of_reuse(t: TaskView, p: PlanView, at: int, achievers: Seq<Achiever>, n: nat, list: Seq<PlanView>, q: PlanView) -> (si: (int, int))
    requires
        n <= p.steps.len(),
        reuse_children(t, p, at, achievers, n, list).contains(q),
        !list.contains(q),
    ensures
        0 <= si.0 < p.steps.len(),
        0 <= si.1 < achievers.len(),
        is_reuse(t, p, at, p.steps[si.0], achievers[si.1], q),
    decreases n,
{
    let before = reuse_children(t, p, at, achievers, (n - 1) as nat, list);
    let step = p.steps[p.steps.len() - n];
    if before.contains(q) {
        lemma_of_reuse(t, p, at, achievers, (n - 1) as nat, list, q)
    } else {
        let i = lemma_of_step_reuse(t, p, at, step, achievers, achievers.len(), before, q);
        (p.steps.len() - n, i)
    }
}

proof fn lemma_open_child(
    t: TaskView,
    layer: spec_fn(int) -> nat,
    cost: ActionCost,
    base: nat,
    ops: Seq<usize>,
    pos: spec_fn(int) -> int,
    now: spec_fn(int) -> int,
    p: PlanView,
    at: int,
    q: PlanView,
)
    requires
        is_regular(t, layer),
        is_bound(t, base),
        is_grounded(t, p),
        realizes(t, ops, pos, p),
        realizes(t, ops, now, q),
        forall|id: int| #[trigger] p.is_step(id) ==> now(id) == pos(id),
        0 <= at < p.opens.len(),
        open_children(t, cost, p, at).contains(q),
    ensures
        is_grounded(t, q),
        is_nearer(t, base, ops, pos, p, now, q),
{
    let open = p.opens[at];
    let fact = open.condition;
    if t.derived(fact.variable as int) {
        let all = supports_of(t, fact).map_values(|s: Seq<Fact>| p.expanded_to(at, s));
        let c = choose|c: int| 0 <= c < all.len() && all[c] == q;
        lemma_expanded_child(t, layer, base, ops, pos, now, p, at, c, q);
    } else {
        let achievers = achievers_of(t, fact);
        lemma_achievers(t, fact);
        let fresh = new_step_children(t, cost, p, at, achievers, achievers.len());
        let reused = reuse_children(t, p, at, achievers, p.steps.len(), fresh);
        let from_init = p.supported(at, INIT_ID, None, Seq::empty());
        let starts = t.initial[fact.variable as int] == fact.value;
        if starts {
            lemma_of_plan(reused, from_init, q);
        }
        if starts && from_init == Some(q) {
            lemma_supported_child(t, layer, base, ops, pos, now, p, at, INIT_ID, None, Seq::empty(), q);
        } else if fresh.contains(q) {
            let i = lemma_of_new_steps(t, cost, p, at, achievers, achievers.len(), q);
            lemma_stepped_child(t, layer, cost, base, ops, pos, now, p, at, achievers[i], q);
        } else {
            let (s, i) = lemma_of_reuse(t, p, at, achievers, p.steps.len(), fresh, q);
            let step = p.steps[s];
            let a = achievers[i];
            assert(achieves(t, fact, a));
            assert(step.id == s + 1);
            assert(p.is_step(step.id as int));
            let o = t.operators[a.operator as int];
            assert(p.effects(t, step.id as int) == o.effects);
            assert(crate::fdr::operator_in(t.variables, o));
            assert(crate::fdr::effect_in(t.variables, o.effects[a.effect as int]));
            lemma_supported_child(t, layer, base, ops, pos, now, p, at, step.id, Some(a.effect), o.effects[a.effect as int].conditions, q);
        }
    }
}

// ---------------------------------------------------------------------------
// Exhausted searches
// ---------------------------------------------------------------------------

/// Whether the heuristic cuts off no plan that a sequence of operators realizes.
pub open spec fn spares_solutions(pl: &Planner, params: &Parameters, ops: Seq<usize>) -> bool {
    forall|p: PlanView, pos: spec_fn(int) -> int| #[trigger] realizes(pl.t(), ops, pos, p) ==> !is_dead(pl, params, p)
}

/// A sequence that realizes a plan of a set that is closed off is no solution.
proof fn lemma_leads_out(
    pl: &Planner,
    params: &Parameters,
    order: int,
    seen: Set<PlanView>,
    layer: spec_fn(int) -> nat,
    base: nat,
    ops: Seq<usize>,
    pos: spec_fn(int) -> int,
    p: PlanView,
)
    requires
        is_regular(pl.t(), layer),
        is_bound(pl.t(), base),
        operators_in(pl.t(), ops),
        ops.len() < usize::MAX / 4,
        spares_solutions(pl, params, ops),
        forall|q: PlanView| #[trigger] seen.contains(q) ==> is_closed_off(pl, params, order, seen, q) || is_dead(pl, params, q),
        seen.contains(p),
        is_grounded(pl.t(), p),
        realizes(pl.t(), ops, pos, p),
    ensures
        !executes(pl.t(), ops),
    decreases
            ops.len() - p.steps.len(),
            armed(pl.t(), p, p.steps.len()),
            total(p.opens, weight(pl.t(), base, ops, pos)),
            loose(p.order, p.steps.len(), p.steps.len()),
{
    let t = pl.t();
    let cost = pl.model();
    lemma_steps_fit(t, ops, pos, p);
    if executes(t, ops) {
        assert(!is_dead(pl, params, p));
        assert(is_closed_off(pl, params, order, seen, p));
        plans_list_their_threats(t, layer, p);
        let threats = p.threats(t);
        if is_complete(t, p) {
            assert forall|x: Threat| !#[trigger] p.threatens(t, x) by {
                assert(!threats.contains(x));
            }
            let at = lemma_linear_schedule(t, p);
            plans_without_flaws_execute(t, layer, p, linear(p, p.steps), at);
        } else {
            let tiers = tiers_of(params, order);
            let flaw = choose|flaw: SelectedFlaw| #[trigger]
                selects(t, cost, p, tiers, flaw) && forall|q: PlanView|
                    flaw_children(t, cost, p, flaw).contains(q) ==> #[trigger] seen.contains(q) || is_dead(pl, params, q);
            let (k, i) = choose|k: int, i: int| #[trigger] selects_at(t, cost, p, tiers, k, i) && candidates_of(t, cost, p, tiers[k])[i].flaw == flaw;
            lemma_threat_candidates_in(t, p, tiers[k], threats, threats.len());
            lemma_open_candidates_in(t, cost, p, tiers[k], p.opens.len(), threat_candidates(t, p, tiers[k], threats, threats.len()));
            assert(flaw_in(t, p, flaw));
            match flaw {
                SelectedFlaw::Threat(threat) => {
                    let q = resolving_a_threat_loses_no_solution(t, layer, ops, pos, p, threat);
                    lemma_threat_child(t, layer, base, ops, pos, p, threat, q);
                    lemma_steps_fit(t, ops, pos, q);
                    assert(!is_dead(pl, params, q));
                    assert(seen.contains(q));
                    lemma_leads_out(pl, params, order, seen, layer, base, ops, pos, q);
                },
                SelectedFlaw::Open(at) => {
                    let (q, now) = resolving_a_condition_loses_no_solution(t, layer, cost, ops, pos, p, at as int);
                    lemma_open_child(t, layer, cost, base, ops, pos, now, p, at as int, q);
                    lemma_steps_fit(t, ops, now, q);
                    assert(!is_dead(pl, params, q));
                    assert(seen.contains(q));
                    lemma_leads_out(pl, params, order, seen, layer, base, ops, now, q);
                },
            }
        }
    }
}

proof fn lemma_first_grounded(t: TaskView)
    requires
        t.wf(),
    ensures
        is_grounded(t, PlanView::initial(t)),
{
    let p = PlanView::initial(t);
    empty_plans_meet_their_needs(t);
    assert forall|i: int| 0 <= i < p.opens.len() implies p.open_in(t, #[trigger] p.opens[i]) by {
        assert(fact_in(t.variables, t.goals[i]));
    }
}

/// Where a search is exhausted there is no solution: no sequence of operators that a plan can
/// number executes, where the heuristic cuts off no plan that the sequence realizes.
pub proof fn exhausted_searches_have_no_solution(pl: &Planner, params: &Parameters, order: int, layer: spec_fn(int) -> nat, ops: Seq<usize>)
    requires
        is_regular(pl.t(), layer),
        operators_in(pl.t(), ops),
        ops.len() < usize::MAX / 4,
        is_exhausted(pl, params, order),
        spares_solutions(pl, params, ops),
    ensures
        !executes(pl.t(), ops),
{
    let t = pl.t();
    if executes(t, ops) {
        let seen = choose|seen: Set<PlanView>| #[trigger]
            seen.contains(PlanView::initial(pl.t())) && forall|p: PlanView| #[trigger]
                seen.contains(p) ==> is_closed_off(pl, params, order, seen, p) || is_dead(pl, params, p);
        let pos = |i: int| i;
        solutions_realize_the_empty_plan(t, ops, pos);
        lemma_first_grounded(t);
        let base = lemma_bound(t, layer);
        lemma_leads_out(pl, params, order, seen, layer, base, ops, pos, PlanView::initial(t));
    }
}

/// Breadth-first search cuts off no plan: where it is exhausted there is no solution.
pub proof fn breadth_first_search_is_complete(pl: &Planner, params: &Parameters, order: int, layer: spec_fn(int) -> nat, ops: Seq<usize>)
    requires
        is_regular(pl.t(), layer),
        operators_in(pl.t(), ops),
        ops.len() < usize::MAX / 4,
        params.search_algorithm == SearchAlgorithm::Bfs,
        is_exhausted(pl, params, order),
    ensures
        !executes(pl.t(), ops),
{
    exhausted_searches_have_no_solution(pl, params, order, layer, ops);
}

/// A search that ends without a plan and without reaching a limit shows that no sequence of
/// operators that a plan can number leads from the initial state to the goal, where the
/// heuristic cuts off no plan that the sequence realizes.
pub proof fn searches_without_a_plan_show_that_there_is_none(
    pl: &Planner,
    params: &Parameters,
    history: Seq<Node>,
    generated: nat,
    layer: spec_fn(int) -> nat,
    ops: Seq<usize>,
)
    requires
        is_regular(pl.t(), layer),
        operators_in(pl.t(), ops),
        ops.len() < usize::MAX / 4,
        params.search_algorithm != SearchAlgorithm::Ida || params.flaw_orders@.len() == 1,
        is_search_result(pl, params, history, Outcome::NoSolution, generated),
        spares_solutions(pl, params, ops),
    ensures
        !executes(pl.t(), ops),
{
    let o = choose|o: int| 0 <= o < params.flaw_orders@.len() && #[trigger] is_exhausted(pl, params, o);
    exhausted_searches_have_no_solution(pl, params, o, layer, ops);
}

/// Estimates that count flaws cut off no plan.
pub proof fn counting_flaws_spares_solutions(pl: &Planner, params: &Parameters, ops: Seq<usize>)
    requires
        params.search_algorithm == SearchAlgorithm::Bfs || (params.heuristic.ranking()[0] is SPlusOc || params.heuristic.ranking()[0] is Ucpop) && !(
        is_lazy_search(params.search_algorithm) && any_reads_graph(params.heuristic.ranking())),
    ensures
        spares_solutions(pl, params, ops),
{
}

} // verus!
