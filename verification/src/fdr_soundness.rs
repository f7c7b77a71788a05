//! Finite-domain plans without flaws are solutions: every order of their steps that they
//! allow can be executed.
use vstd::prelude::*;

use crate::fdr::{all_hold, holds, Fact, TaskView};
use crate::fdr_completeness::{is_regular, lemma_assigned_by, lemma_closure_keeps, lemma_effect_assigns, lemma_states, state_at, time_of};
use crate::fdr_execution::{
    applicable, executes, is_topological, linear, linearization, linearization_is_topological, operators_in, result_of, state_after, step_operators,
};
use crate::fdr_lmcut::{assignments, preconditions_of};
use crate::fdr_plan::{in_discovery_order, opens_commit, rules_out, threat_less, OpenCondition, PlanView, Step, Threat};
use crate::fdr_plan_laws::{has_condition, link_conditions, needs_met};
use crate::plan::{GOAL_ID, INIT_ID};
use crate::supports::{some_holds, supports_of};
use crate::supports_laws::supports_are_exact;

verus! {

/// Whether a derived condition that was replaced is supported: all facts of one of its
/// supports are conditions of its consumer.
pub open spec fn is_supported(t: TaskView, p: PlanView, o: OpenCondition) -> bool {
    t.derived(o.condition.variable as int) && exists|c: int|
        0 <= c < supports_of(t, o.condition).len() && are_conditions(p, o.consumer, #[trigger] supports_of(t, o.condition)[c])
}

/// Whether all facts of a list are conditions of a step.
pub open spec fn are_conditions(p: PlanView, consumer: usize, facts: Seq<Fact>) -> bool {
    forall|j: int| 0 <= j < facts.len() ==> has_condition(p, consumer, #[trigger] facts[j])
}

/// Whether a plan is well formed, has all conditions that its steps and links need, has
/// replaced derived conditions by supports, and links base facts only.
pub open spec fn is_grounded(t: TaskView, p: PlanView) -> bool {
    &&& p.wf(t)
    &&& needs_met(t, p)
    &&& forall|i: int| 0 <= i < p.expanded.len() ==> is_supported(t, p, #[trigger] p.expanded[i])
    &&& forall|i: int| 0 <= i < p.links.len() ==> !t.derived((#[trigger] p.links[i]).condition.variable as int)
}

spec fn effect_list(t: TaskView, p: PlanView, link: usize, step: usize, n: nat) -> Seq<Threat>
    decreases n,
{
    if n == 0 {
        Seq::empty()
    } else {
        let before = effect_list(t, p, link, step, (n - 1) as nat);
        let x = Threat { link, step, effect: (n - 1) as usize };
        if p.threatens(t, x) {
            before.push(x)
        } else {
            before
        }
    }
}

spec fn step_list(t: TaskView, p: PlanView, link: usize, n: nat) -> Seq<Threat>
    decreases n,
{
    if n == 0 {
        Seq::empty()
    } else {
        step_list(t, p, link, (n - 1) as nat) + effect_list(t, p, link, n as usize, p.effects(t, n as int).len())
    }
}

spec fn link_list(t: TaskView, p: PlanView, n: nat) -> Seq<Threat>
    decreases n,
{
    if n == 0 {
        Seq::empty()
    } else {
        link_list(t, p, (n - 1) as nat) + step_list(t, p, (n - 1) as usize, p.steps.len())
    }
}

proof fn lemma_effect_list(t: TaskView, p: PlanView, link: usize, step: usize, n: nat)
    requires
        n <= usize::MAX,
    ensures
        in_discovery_order(effect_list(t, p, link, step, n)),
        forall|x: Threat| #[trigger]
            effect_list(t, p, link, step, n).contains(x) <==> p.threatens(t, x) && x.link == link && x.step == step && x.effect < n,
    decreases n,
{
    if n > 0 {
        lemma_effect_list(t, p, link, step, (n - 1) as nat);
        let before = effect_list(t, p, link, step, (n - 1) as nat);
        let all = effect_list(t, p, link, step, n);
        let y = Threat { link, step, effect: (n - 1) as usize };
        assert forall|i: int, j: int| 0 <= i < j < all.len() implies threat_less(#[trigger] all[i], #[trigger] all[j]) by {
            if j == before.len() {
                assert(before.contains(before[i]));
            }
        }
        assert forall|x: Threat| #[trigger] all.contains(x) <==> p.threatens(t, x) && x.link == link && x.step == step && x.effect < n by {
            if all.contains(x) {
                let i = choose|i: int| 0 <= i < all.len() && all[i] == x;
                if i < before.len() {
                    assert(before[i] == x);
                    assert(before.contains(x));
                }
            }
            if before.contains(x) {
                let i = choose|i: int| 0 <= i < before.len() && before[i] == x;
                assert(all[i] == x);
            }
            if x == y && p.threatens(t, x) {
                assert(all[before.len() as int] == x);
            }
        }
    }
}

proof fn lemma_join(a: Seq<Threat>, b: Seq<Threat>)
    requires
        in_discovery_order(a),
        in_discovery_order(b),
        forall|x: Threat, y: Threat| #[trigger] a.contains(x) && #[trigger] b.contains(y) ==> threat_less(x, y),
    ensures
        in_discovery_order(a + b),
        forall|x: Threat| #[trigger] (a + b).contains(x) <==> a.contains(x) || b.contains(x),
{
    let all = a + b;
    assert forall|i: int, j: int| 0 <= i < j < all.len() implies threat_less(#[trigger] all[i], #[trigger] all[j]) by {
        if j < a.len() {
            assert(threat_less(a[i], a[j]));
        } else if i >= a.len() {
            assert(threat_less(b[i - a.len()], b[j - a.len()]));
        } else {
            assert(a.contains(a[i]));
            assert(b.contains(b[j - a.len()]));
        }
    }
    assert forall|x: Threat| #[trigger] all.contains(x) <==> a.contains(x) || b.contains(x) by {
        if all.contains(x) {
            let i = choose|i: int| 0 <= i < all.len() && all[i] == x;
            if i < a.len() {
                assert(a[i] == x);
            } else {
                assert(b[i - a.len()] == x);
            }
        }
        if a.contains(x) {
            let i = choose|i: int| 0 <= i < a.len() && a[i] == x;
            assert(all[i] == x);
        }
        if b.contains(x) {
            let i = choose|i: int| 0 <= i < b.len() && b[i] == x;
            assert(all[a.len() + i] == x);
        }
    }
}

proof fn lemma_step_list(t: TaskView, p: PlanView, layer: spec_fn(int) -> nat, link: usize, n: nat)
    requires
        is_regular(t, layer),
        p.wf(t),
        n <= p.steps.len(),
    ensures
        in_discovery_order(step_list(t, p, link, n)),
        forall|x: Threat| #[trigger] step_list(t, p, link, n).contains(x) <==> p.threatens(t, x) && x.link == link && x.step <= n,
    decreases n,
{
    if n > 0 {
        lemma_step_list(t, p, layer, link, (n - 1) as nat);
        assert(p.steps[n - 1].operator < t.operators.len());
        assert(t.operators[p.steps[n - 1].operator as int].effects.len() <= usize::MAX);
        lemma_effect_list(t, p, link, n as usize, p.effects(t, n as int).len());
        lemma_join(step_list(t, p, link, (n - 1) as nat), effect_list(t, p, link, n as usize, p.effects(t, n as int).len()));
    } else {
        assert forall|x: Threat| p.threatens(t, x) implies x.step > 0 by {}
    }
}

proof fn lemma_link_list(t: TaskView, p: PlanView, layer: spec_fn(int) -> nat, n: nat)
    requires
        is_regular(t, layer),
        p.wf(t),
        n <= p.links.len() <= usize::MAX,
    ensures
        in_discovery_order(link_list(t, p, n)),
        forall|x: Threat| #[trigger] link_list(t, p, n).contains(x) <==> p.threatens(t, x) && x.link < n,
    decreases n,
{
    if n > 0 {
        lemma_link_list(t, p, layer, (n - 1) as nat);
        lemma_step_list(t, p, layer, (n - 1) as usize, p.steps.len());
        lemma_join(link_list(t, p, (n - 1) as nat), step_list(t, p, (n - 1) as usize, p.steps.len()));
    }
}

/// The threats of a plan can be listed: its list of threats holds all of them.
pub proof fn plans_list_their_threats(t: TaskView, layer: spec_fn(int) -> nat, p: PlanView)
    requires
        is_regular(t, layer),
        p.wf(t),
        p.links.len() <= usize::MAX,
    ensures
        p.discovers(t, p.threats(t)),
{
    lemma_link_list(t, p, layer, p.links.len());
    assert(p.discovers(t, link_list(t, p, p.links.len())));
}

/// A list of all steps of a plan in an order that it allows, and the place of each.
pub open spec fn is_schedule(t: TaskView, p: PlanView, list: Seq<Step>, pos: spec_fn(int) -> int) -> bool {
    &&& list.len() == p.steps.len()
    &&& forall|k: int| 0 <= k < list.len() ==> p.is_step((#[trigger] list[k]).id as int) && list[k] == p.steps[list[k].id - 1] && pos(list[k].id as int) == k
    &&& forall|id: int| #[trigger] p.is_step(id) ==> 0 <= pos(id) < list.len() && list[pos(id)] == p.steps[id - 1]
    &&& is_topological(p, list)
}

/// Whether every condition of the steps in a place holds there.
spec fn is_true_at(t: TaskView, p: PlanView, ops: Seq<usize>, pos: spec_fn(int) -> int, k: int) -> bool {
    forall|c: usize, f: Fact|
        (c == GOAL_ID || p.is_step(c as int)) && time_of(ops, pos, c as int) == k && #[trigger] has_condition(p, c, f) ==> holds(
            state_at(t, ops, k),
            f,
        )
}

/// A step between those of a link leaves its condition, where the plan has no threats and
/// the conditions of the step hold.
proof fn lemma_step_keeps(
    t: TaskView,
    layer: spec_fn(int) -> nat,
    p: PlanView,
    list: Seq<Step>,
    pos: spec_fn(int) -> int,
    i: int,
    m: int,
)
    requires
        is_regular(t, layer),
        is_grounded(t, p),
        p.opens.len() == 0,
        forall|x: Threat| !#[trigger] p.threatens(t, x),
        is_schedule(t, p, list, pos),
        0 <= i < p.links.len() <= usize::MAX,
        operators_in(t, step_operators(list)),
        time_of(step_operators(list), pos, p.links[i].producer as int) < m < time_of(step_operators(list), pos, p.links[i].consumer as int),
        0 <= m < list.len(),
        is_true_at(t, p, step_operators(list), pos, m),
        holds(state_at(t, step_operators(list), m), p.links[i].condition),
    ensures
        holds(state_at(t, step_operators(list), m + 1), p.links[i].condition),
{
    let ops = step_operators(list);
    let link = p.links[i];
    let v = link.condition.variable as int;
    let y = list[m];
    let o = t.operators[y.operator as int];
    let now = state_at(t, ops, m);
    let after = state_after(t, ops, (m + 1) as nat);
    assert(ops[m] == y.operator);
    assert(p.is_step(y.id as int));
    assert(p.link_in(t, link));
    lemma_states(t, layer, ops, m);
    lemma_states(t, layer, ops, m + 1);
    assert(crate::fdr::operator_in(t.variables, o));
    assert forall|e: int| 0 <= e < o.effects.len() implies (#[trigger] o.effects[e]).variable < now.len() by {
        assert(crate::fdr::effect_in(t.variables, o.effects[e]));
    }
    assert(after == result_of(o, now));
    lemma_closure_keeps(t, after, v);
    lemma_assigned_by(now, o.effects, o.effects.len(), v);
    if after[v] != link.condition.value {
        let e = choose|e: int|
            0 <= e < o.effects.len() && (#[trigger] o.effects[e]).variable == v && o.effects[e].post == after[v] && all_hold(
                now,
                o.effects[e].conditions,
            );
        let conditions = o.effects[e].conditions;
        let x = Threat { link: i as usize, step: y.id, effect: e as usize };
        assert(o.effects.len() <= usize::MAX);
        assert(p.effects(t, y.id as int) == o.effects);
        assert(p.inside(y.id as int, link)) by {
            if p.precedes(y.id as int, link.producer as int) {
                if link.producer == INIT_ID {
                    assert(p.order.contains((y.id as int, 0int)));
                    assert(p.is_step(0));
                } else {
                    let a = pos(link.producer as int);
                    assert(p.is_step(link.producer as int));
                    assert(list[a].id == link.producer);
                    assert(a < m);
                }
            }
            if p.precedes(link.consumer as int, y.id as int) {
                if link.consumer == GOAL_ID {
                    assert(p.order.contains((GOAL_ID as int, y.id as int)));
                    assert(p.is_step(GOAL_ID as int));
                } else {
                    let b = pos(link.consumer as int);
                    assert(p.is_step(link.consumer as int));
                    assert(list[b].id == link.consumer);
                    assert(m < b);
                }
            }
        }
        assert(!p.disarmed(y.id, conditions)) by {
            if p.disarmed(y.id, conditions) {
                let k = choose|k: int| 0 <= k < conditions.len() && p.committed(y.id, #[trigger] conditions[k]);
                assert(holds(now, conditions[k]));
                if opens_commit(p.expanded, y.id, conditions[k]) {
                    let j = choose|j: int|
                        0 <= j < p.expanded.len() && (#[trigger] p.expanded[j]).consumer == y.id && rules_out(p.expanded[j].condition, conditions[k]);
                    assert(p.expanded.contains(OpenCondition { consumer: y.id, condition: p.expanded[j].condition })) by {
                        assert(p.expanded[j] == (OpenCondition { consumer: y.id, condition: p.expanded[j].condition }));
                    }
                    assert(has_condition(p, y.id, p.expanded[j].condition));
                } else {
                    let j = choose|j: int|
                        0 <= j < p.links.len() && (#[trigger] p.links[j]).consumer == y.id && rules_out(p.links[j].condition, conditions[k]);
                    assert(has_condition(p, y.id, p.links[j].condition));
                }
            }
        }
        assert(p.threatens(t, x));
    }
}

proof fn lemma_link_keeps(
    t: TaskView,
    layer: spec_fn(int) -> nat,
    p: PlanView,
    list: Seq<Step>,
    pos: spec_fn(int) -> int,
    i: int,
    m: int,
)
    requires
        is_regular(t, layer),
        is_grounded(t, p),
        p.opens.len() == 0,
        forall|x: Threat| !#[trigger] p.threatens(t, x),
        is_schedule(t, p, list, pos),
        0 <= i < p.links.len() <= usize::MAX,
        operators_in(t, step_operators(list)),
        time_of(step_operators(list), pos, p.links[i].producer as int) < m <= time_of(step_operators(list), pos, p.links[i].consumer as int) <= list.len(),
        -1 <= time_of(step_operators(list), pos, p.links[i].producer as int),
        forall|k: int| 0 <= k < m ==> is_true_at(t, p, step_operators(list), pos, k),
        holds(state_at(t, step_operators(list), time_of(step_operators(list), pos, p.links[i].producer as int) + 1), p.links[i].condition),
    ensures
        holds(state_at(t, step_operators(list), m), p.links[i].condition),
    decreases m,
{
    let ops = step_operators(list);
    let from = time_of(ops, pos, p.links[i].producer as int);
    if m > from + 1 {
        lemma_link_keeps(t, layer, p, list, pos, i, m - 1);
        assert(is_true_at(t, p, ops, pos, m - 1));
        lemma_step_keeps(t, layer, p, list, pos, i, m - 1);
    }
}

/// The condition of a link holds at its consumer, where all before it does.
proof fn lemma_link_true(
    t: TaskView,
    layer: spec_fn(int) -> nat,
    p: PlanView,
    list: Seq<Step>,
    pos: spec_fn(int) -> int,
    i: int,
    k: int,
)
    requires
        is_regular(t, layer),
        is_grounded(t, p),
        p.opens.len() == 0,
        forall|x: Threat| !#[trigger] p.threatens(t, x),
        is_schedule(t, p, list, pos),
        0 <= i < p.links.len() <= usize::MAX,
        operators_in(t, step_operators(list)),
        0 <= k <= list.len(),
        time_of(step_operators(list), pos, p.links[i].consumer as int) == k,
        forall|m: int| 0 <= m < k ==> is_true_at(t, p, step_operators(list), pos, m),
    ensures
        holds(state_at(t, step_operators(list), k), p.links[i].condition),
{
    let ops = step_operators(list);
    let link = p.links[i];
    let v = link.condition.variable as int;
    assert(p.link_in(t, link));
    if link.effect is None {
        lemma_states(t, layer, ops, 0);
        lemma_closure_keeps(t, t.initial, v);
        assert(holds(state_at(t, ops, 0), link.condition));
        lemma_link_keeps(t, layer, p, list, pos, i, k);
    } else {
        let a = pos(link.producer as int);
        let x = list[a];
        let o = t.operators[x.operator as int];
        let e = link.effect->0 as int;
        assert(p.is_step(link.producer as int));
        assert(x == p.steps[link.producer - 1]);
        assert(x.id == link.producer);
        assert(ops[a] == x.operator);
        if link.consumer != GOAL_ID {
            let b = pos(link.consumer as int);
            assert(p.is_step(link.consumer as int));
            assert(list[b].id == link.consumer);
            assert(a != b);
            assert(!(b < a));
        }
        assert(a < k);
        assert(is_true_at(t, p, ops, pos, a));
        let now = state_at(t, ops, a);
        lemma_states(t, layer, ops, a);
        lemma_states(t, layer, ops, a + 1);
        assert(crate::fdr::operator_in(t.variables, o));
        assert forall|j: int| 0 <= j < o.effects.len() implies (#[trigger] o.effects[j]).variable < now.len() by {
            assert(crate::fdr::effect_in(t.variables, o.effects[j]));
        }
        let conditions = o.effects[e].conditions;
        assert(link_conditions(t, p, link) == conditions);
        assert forall|j: int| 0 <= j < conditions.len() implies holds(now, #[trigger] conditions[j]) by {
            assert(link_conditions(t, p, p.links[i]).contains(conditions[j]));
            assert(has_condition(p, link.producer, conditions[j]));
            assert(time_of(ops, pos, link.producer as int) == a);
        }
        assert(all_hold(now, conditions));
        let after = state_after(t, ops, (a + 1) as nat);
        assert(after == result_of(o, now));
        lemma_effect_assigns(now, o, o.effects.len(), e);
        assert(assignments(o.effects)[e] == link.condition);
        lemma_closure_keeps(t, after, v);
        assert(holds(state_at(t, ops, a + 1), link.condition));
        lemma_link_keeps(t, layer, p, list, pos, i, k);
    }
}

proof fn lemma_true_at(t: TaskView, layer: spec_fn(int) -> nat, p: PlanView, list: Seq<Step>, pos: spec_fn(int) -> int, n: nat)
    requires
        is_regular(t, layer),
        is_grounded(t, p),
        p.opens.len() == 0,
        p.links.len() <= usize::MAX,
        forall|x: Threat| !#[trigger] p.threatens(t, x),
        is_schedule(t, p, list, pos),
        operators_in(t, step_operators(list)),
        n <= list.len() + 1,
    ensures
        forall|k: int| 0 <= k < n ==> is_true_at(t, p, step_operators(list), pos, k),
    decreases n,
{
    if n > 0 {
        let ops = step_operators(list);
        let k = n - 1;
        lemma_true_at(t, layer, p, list, pos, k as nat);
        lemma_states(t, layer, ops, k);
        let now = state_at(t, ops, k);
        assert forall|c: usize, f: Fact|
            (c == GOAL_ID || p.is_step(c as int)) && time_of(ops, pos, c as int) == k && !t.derived(f.variable as int) && #[trigger] has_condition(p, c, f)
                implies holds(now, f) by {
            let o = OpenCondition { consumer: c, condition: f };
            if p.expanded.contains(o) {
                let j = choose|j: int| 0 <= j < p.expanded.len() && p.expanded[j] == o;
                assert(is_supported(t, p, p.expanded[j]));
            }
            let i = choose|i: int| 0 <= i < p.links.len() && (#[trigger] p.links[i]).consumer == c && p.links[i].condition == f;
            lemma_link_true(t, layer, p, list, pos, i, k);
        }
        assert(is_true_at(t, p, ops, pos, k)) by {
            assert forall|c: usize, f: Fact|
                (c == GOAL_ID || p.is_step(c as int)) && time_of(ops, pos, c as int) == k && #[trigger] has_condition(p, c, f) implies holds(
                state_at(t, ops, k),
                f,
            ) by {
                if t.derived(f.variable as int) {
                    let o = OpenCondition { consumer: c, condition: f };
                    assert(p.expanded.contains(o)) by {
                        if !p.expanded.contains(o) {
                            let i = choose|i: int| 0 <= i < p.links.len() && (#[trigger] p.links[i]).consumer == c && p.links[i].condition == f;
                            assert(!t.derived(p.links[i].condition.variable as int));
                        }
                    }
                    let j = choose|j: int| 0 <= j < p.expanded.len() && p.expanded[j] == o;
                    assert(is_supported(t, p, p.expanded[j]));
                    assert(p.open_in(t, p.expanded[j]));
                    let supports = supports_of(t, f);
                    let s = choose|s: int| 0 <= s < supports.len() && are_conditions(p, c, #[trigger] supports[s]);
                    crate::supports::lemma_supports_base(t, f);
                    assert(crate::supports::base_clause(t, supports[s]));
                    assert forall|m: int| 0 <= m < supports[s].len() implies holds(now, #[trigger] supports[s][m]) by {
                        assert(has_condition(p, c, supports[s][m]));
                    }
                    assert(all_hold(now, supports[s]));
                    assert(some_holds(supports, now));
                    supports_are_exact(t, layer, state_after(t, ops, k as nat), f);
                }
            }
        }
        assert forall|m: int| 0 <= m < n implies is_true_at(t, p, step_operators(list), pos, m) by {
            if m == k {
                assert(is_true_at(t, p, ops, pos, k));
            }
        }
    }
}

/// A plan without flaws is a solution: every list of its steps in an order that it allows
/// executes from the initial state and ends in the goal.
pub proof fn plans_without_flaws_execute(t: TaskView, layer: spec_fn(int) -> nat, p: PlanView, list: Seq<Step>, pos: spec_fn(int) -> int)
    requires
        is_regular(t, layer),
        is_grounded(t, p),
        p.opens.len() == 0,
        p.links.len() <= usize::MAX,
        forall|x: Threat| !#[trigger] p.threatens(t, x),
        is_schedule(t, p, list, pos),
    ensures
        executes(t, step_operators(list)),
{
    let ops = step_operators(list);
    assert(operators_in(t, ops)) by {
        assert forall|k: int| 0 <= k < ops.len() implies #[trigger] ops[k] < t.operators.len() by {
            assert(p.is_step(list[k].id as int));
        }
    }
    lemma_true_at(t, layer, p, list, pos, list.len() + 1);
    assert forall|k: int| 0 <= k < ops.len() implies applicable(
        t.operators[#[trigger] ops[k] as int],
        t.closure(state_after(t, ops, k as nat)),
    ) by {
        let x = list[k];
        assert(p.is_step(x.id as int));
        assert(x == p.steps[x.id - 1]);
        assert(is_true_at(t, p, ops, pos, k));
        let pre = preconditions_of(t.operators[ops[k] as int]);
        assert forall|j: int| 0 <= j < pre.len() implies holds(state_at(t, ops, k), #[trigger] pre[j]) by {
            assert(preconditions_of(t.operators[p.steps[x.id - 1].operator as int]).contains(pre[j]));
            assert(has_condition(p, x.id, pre[j]));
            assert(time_of(ops, pos, x.id as int) == k);
        }
    }
    assert forall|j: int| 0 <= j < t.goals.len() implies holds(state_at(t, ops, ops.len() as int), #[trigger] t.goals[j]) by {
        assert(t.goals.contains(t.goals[j]));
        assert(is_true_at(t, p, ops, pos, list.len() as int));
        assert(has_condition(p, GOAL_ID, t.goals[j]));
    }
}

/// The linearization of a plan is a list of its steps in an order that it allows.
pub proof fn lemma_linear_schedule(t: TaskView, p: PlanView) -> (pos: spec_fn(int) -> int)
    requires
        p.wf(t),
    ensures
        is_schedule(t, p, linear(p, p.steps), pos),
        linearization(p) == step_operators(linear(p, p.steps)),
{
    let list = linear(p, p.steps);
    linearization_is_topological(t, p);
    assert(p.steps.no_duplicates()) by {
        assert forall|i: int, j: int| 0 <= i < p.steps.len() && 0 <= j < p.steps.len() && i != j implies p.steps[i] != p.steps[j] by {
            assert(p.steps[i].id == i + 1 && p.steps[j].id == j + 1);
        }
    }
    p.steps.lemma_multiset_has_no_duplicates();
    list.lemma_multiset_has_no_duplicates_conv();
    broadcast use vstd::seq_lib::group_to_multiset_ensures;
    assert forall|x: Step| list.contains(x) == p.steps.contains(x) by {
        assert(list.to_multiset().count(x) == p.steps.to_multiset().count(x));
    }
    let pos = |id: int| choose|k: int| 0 <= k < list.len() && list[k] == p.steps[id - 1];
    assert forall|id: int| #[trigger] p.is_step(id) implies 0 <= pos(id) < list.len() && list[pos(id)] == p.steps[id - 1] by {
        assert(p.steps.contains(p.steps[id - 1]));
        assert(list.contains(p.steps[id - 1]));
    }
    assert forall|k: int| 0 <= k < list.len() implies p.is_step((#[trigger] list[k]).id as int) && list[k] == p.steps[list[k].id - 1] && pos(
        list[k].id as int,
    ) == k by {
        assert(list.contains(list[k]));
        assert(p.steps.contains(list[k]));
        let i = choose|i: int| 0 <= i < p.steps.len() && p.steps[i] == list[k];
        assert(p.steps[i].id == i + 1);
        assert(p.is_step(i + 1));
        assert(list[pos(i + 1)] == p.steps[i]);
    }
    pos
}

} // verus!
