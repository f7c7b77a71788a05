//! Executing operators under the SAS+ transition semantics, and linearizing
//! partial plans.
use vstd::prelude::*;

use crate::fdr::{
    all_hold, effect_in, fact_in, facts_hold, lemma_closure_in, lemma_precondition_in, operator_in, state_in, EffectView, OperatorView, Task,
    TaskView,
};
use crate::fdr_lmcut::{lemma_preconditions_of, preconditions_of};
use crate::fdr_plan::{PartialPlan, PlanView, Step};
use crate::text::copy_vec;

verus! {

/// The state after the first `n` effects: those whose conditions hold in
/// `before` assign their values, in order.
pub open spec fn assign(before: Seq<usize>, effects: Seq<EffectView>, n: nat) -> Seq<usize>
    decreases n,
{
    if n == 0 {
        before
    } else {
        let s = assign(before, effects, (n - 1) as nat);
        if all_hold(before, effects[n - 1].conditions) {
            s.update(effects[n - 1].variable as int, effects[n - 1].post)
        } else {
            s
        }
    }
}

/// The state that the operator leads to.
pub open spec fn result_of(o: OperatorView, state: Seq<usize>) -> Seq<usize> {
    assign(state, o.effects, o.effects.len())
}

pub open spec fn applicable(o: OperatorView, state: Seq<usize>) -> bool {
    all_hold(state, preconditions_of(o))
}

/// The state after the first `n` operators, before the axioms are applied.
pub open spec fn state_after(t: TaskView, operators: Seq<usize>, n: nat) -> Seq<usize>
    decreases n,
{
    if n == 0 {
        t.initial
    } else {
        result_of(t.operators[operators[n - 1] as int], t.closure(state_after(t, operators, (n - 1) as nat)))
    }
}

/// Every operator is applicable in the state it meets, and the goals hold at the end.
pub open spec fn executes(t: TaskView, operators: Seq<usize>) -> bool {
    &&& forall|k: int|
        0 <= k < operators.len() ==> applicable(
            t.operators[#[trigger] operators[k] as int],
            t.closure(state_after(t, operators, k as nat)),
        )
    &&& all_hold(t.closure(state_after(t, operators, operators.len())), t.goals)
}

pub open spec fn operators_in(t: TaskView, operators: Seq<usize>) -> bool {
    forall|k: int| 0 <= k < operators.len() ==> #[trigger] operators[k] < t.operators.len()
}

proof fn lemma_assign_in(t: TaskView, o: OperatorView, state: Seq<usize>, n: nat)
    requires
        operator_in(t.variables, o),
        state_in(t.variables, state),
        n <= o.effects.len(),
    ensures
        state_in(t.variables, assign(state, o.effects, n)),
    decreases n,
{
    if n > 0 {
        lemma_assign_in(t, o, state, (n - 1) as nat);
        assert(effect_in(t.variables, o.effects[n - 1]));
    }
}

/// Every state on the way gives every variable one of its values.
pub proof fn lemma_state_after_in(t: TaskView, operators: Seq<usize>, n: nat)
    requires
        t.wf(),
        t.axioms_converge(),
        operators_in(t, operators),
        n <= operators.len(),
    ensures
        state_in(t.variables, state_after(t, operators, n)),
    decreases n,
{
    if n > 0 {
        lemma_state_after_in(t, operators, (n - 1) as nat);
        let s = state_after(t, operators, (n - 1) as nat);
        assert(t.converges(s));
        lemma_closure_in(t, s);
        let o = t.operators[operators[n - 1] as int];
        assert(operators[n - 1] < t.operators.len());
        assert(operator_in(t.variables, o));
        lemma_assign_in(t, o, t.closure(s), o.effects.len());
    }
}

/// Executes the operators against the SAS+ transition semantics.
pub fn validate(task: &Task, operators: &Vec<usize>) -> (res: bool)
    requires
        task.wf(),
        task@.axioms_converge(),
        operators_in(task@, operators@),
    ensures
        res == executes(task@, operators@),
{
    let ghost t = task@;
    let ghost ops = operators@;
    let mut state = copy_vec(&task.initial);
    let mut k: usize = 0;
    while k < operators.len()
        invariant
            t == task@,
            task.wf(),
            t.axioms_converge(),
            ops == operators@,
            operators_in(t, ops),
            k <= ops.len(),
            state@ == state_after(t, ops, k as nat),
            state_in(t.variables, state@),
            forall|j: int|
                0 <= j < k ==> applicable(t.operators[#[trigger] ops[j] as int], t.closure(state_after(t, ops, j as nat))),
        decreases ops.len() - k,
    {
        assert(t.converges(state@));
        task.close_axioms(&mut state);
        assert(ops[k as int] < t.operators.len());
        let operator = &task.operators[operators[k]];
        let ghost o = t.operators[ops[k as int] as int];
        assert(o == operator@);
        assert(operator_in(t.variables, o));
        let pre = operator.preconditions();
        proof {
            lemma_preconditions_of(o, pre@);
            lemma_precondition_in(t.variables, o, pre@);
            assert forall|i: int| 0 <= i < pre@.len() implies (#[trigger] pre@[i]).variable < state@.len() by {
                assert(fact_in(t.variables, pre@[i]));
            }
        }
        if !facts_hold(&state, &pre) {
            assert(!applicable(t.operators[ops[k as int] as int], t.closure(state_after(t, ops, k as nat))));
            return false;
        }
        // Conditions are tested in the predecessor state; triggered assignments
        // are applied together.
        let before = copy_vec(&state);
        let mut e: usize = 0;
        while e < operator.effects.len()
            invariant
                o == operator@,
                operator_in(t.variables, o),
                state_in(t.variables, before@),
                e <= o.effects.len(),
                state@ == assign(before@, o.effects, e as nat),
                state@.len() == before@.len(),
            decreases o.effects.len() - e,
        {
            let effect = &operator.effects[e];
            assert(o.effects[e as int] == effect@);
            assert(effect_in(t.variables, o.effects[e as int]));
            assert forall|i: int| 0 <= i < effect.conditions@.len() implies (#[trigger] effect.conditions@[i]).variable
                < before@.len() by {
                assert(fact_in(t.variables, effect.conditions@[i]));
            }
            if facts_hold(&before, &effect.conditions) {
                state.set(effect.variable, effect.post);
            }
            e = e + 1;
        }
        k = k + 1;
        proof {
            lemma_state_after_in(t, ops, k as nat);
        }
    }
    assert(t.converges(state@));
    task.close_axioms(&mut state);
    assert forall|i: int| 0 <= i < task.goals@.len() implies (#[trigger] task.goals@[i]).variable < state@.len() by {
        assert(fact_in(t.variables, t.goals[i]));
    }
    facts_hold(&state, &task.goals)
}

// ---------------------------------------------------------------------------
// Linearization
// ---------------------------------------------------------------------------

/// No listed step precedes the one at `i`.
pub open spec fn is_minimal(p: PlanView, steps: Seq<Step>, i: int) -> bool {
    forall|j: int| 0 <= j < steps.len() ==> !p.precedes((#[trigger] steps[j]).id as int, steps[i].id as int)
}

/// The first step that no other listed step precedes.
pub open spec fn first_minimal(p: PlanView, steps: Seq<Step>, from: int) -> int
    decreases steps.len() - from,
{
    if from >= steps.len() || is_minimal(p, steps, from) {
        from
    } else {
        first_minimal(p, steps, from + 1)
    }
}

/// The deterministic topological order: always the first step that no
/// remaining step precedes.
pub open spec fn linear(p: PlanView, steps: Seq<Step>) -> Seq<Step>
    decreases steps.len(),
{
    let i = first_minimal(p, steps, 0);
    if 0 <= i < steps.len() {
        seq![steps[i]] + linear(p, steps.remove(i))
    } else {
        Seq::empty()
    }
}

pub open spec fn step_operators(steps: Seq<Step>) -> Seq<usize> {
    steps.map_values(|s: Step| s.operator)
}

/// The operators of the plan in its deterministic topological order.
pub open spec fn linearization(p: PlanView) -> Seq<usize> {
    step_operators(linear(p, p.steps))
}

/// The listed steps are real steps of the plan.
pub open spec fn steps_in(p: PlanView, steps: Seq<Step>) -> bool {
    forall|i: int| 0 <= i < steps.len() ==> p.is_step((#[trigger] steps[i]).id as int) && p.steps[steps[i].id - 1] == steps[i]
}

proof fn lemma_minimal_exists(t: TaskView, p: PlanView, steps: Seq<Step>) -> (i: int)
    requires
        p.wf(t),
        steps_in(p, steps),
        steps.len() > 0,
    ensures
        0 <= i < steps.len(),
        is_minimal(p, steps, i),
    decreases steps.len(),
{
    let n = steps.len();
    if n == 1 {
        assert(p.is_step(steps[0].id as int));
        assert forall|j: int| 0 <= j < n implies !p.precedes((#[trigger] steps[j]).id as int, steps[0].id as int) by {
            assert(j == 0);
        }
        0
    } else {
        let rest = steps.drop_last();
        assert forall|k: int| 0 <= k < rest.len() implies p.is_step((#[trigger] rest[k]).id as int) && p.steps[rest[k].id - 1]
            == rest[k] by {
            assert(rest[k] == steps[k]);
        }
        let m = lemma_minimal_exists(t, p, rest);
        let last = n - 1;
        assert(p.is_step(steps[last].id as int) && p.is_step(steps[m].id as int));
        if p.precedes(steps[last].id as int, steps[m].id as int) {
            assert forall|j: int| 0 <= j < n implies !p.precedes((#[trigger] steps[j]).id as int, steps[last].id as int) by {
                if j < last && p.precedes(steps[j].id as int, steps[last].id as int) {
                    assert(p.is_step(steps[j].id as int));
                    assert(p.order.contains((steps[j].id as int, steps[last].id as int)));
                    assert(p.order.contains((steps[last].id as int, steps[m].id as int)));
                    assert(p.order.contains((steps[j].id as int, steps[m].id as int)));
                    assert(!p.precedes(rest[j].id as int, rest[m].id as int));
                }
            }
            last
        } else {
            assert forall|j: int| 0 <= j < n implies !p.precedes((#[trigger] steps[j]).id as int, steps[m].id as int) by {
                if j < last {
                    assert(!p.precedes(rest[j].id as int, rest[m].id as int));
                }
            }
            m
        }
    }
}

proof fn lemma_first_minimal(p: PlanView, steps: Seq<Step>, from: int, i: int)
    requires
        0 <= from <= i < steps.len(),
        is_minimal(p, steps, i),
    ensures
        from <= first_minimal(p, steps, from) <= i,
        is_minimal(p, steps, first_minimal(p, steps, from)),
    decreases i - from,
{
    if !is_minimal(p, steps, from) {
        lemma_first_minimal(p, steps, from + 1, i);
    }
}

proof fn lemma_steps_in_remove(p: PlanView, steps: Seq<Step>, i: int)
    requires
        steps_in(p, steps),
        0 <= i < steps.len(),
    ensures
        steps_in(p, steps.remove(i)),
{
    let rest = steps.remove(i);
    assert forall|k: int| 0 <= k < rest.len() implies p.is_step((#[trigger] rest[k]).id as int) && p.steps[rest[k].id - 1] == rest[k] by {
        if k < i {
            assert(rest[k] == steps[k]);
        } else {
            assert(rest[k] == steps[k + 1]);
        }
    }
}

/// The order of the list agrees with the order of the plan.
pub open spec fn is_topological(p: PlanView, steps: Seq<Step>) -> bool {
    forall|i: int, j: int|
        0 <= i < j < steps.len() ==> !p.precedes((#[trigger] steps[j]).id as int, (#[trigger] steps[i]).id as int)
}

proof fn lemma_linear(t: TaskView, p: PlanView, steps: Seq<Step>)
    requires
        p.wf(t),
        steps_in(p, steps),
    ensures
        linear(p, steps).len() == steps.len(),
        linear(p, steps).to_multiset() == steps.to_multiset(),
        is_topological(p, linear(p, steps)),
        forall|x: Step| #[trigger] linear(p, steps).contains(x) <==> steps.contains(x),
    decreases steps.len(),
{
    broadcast use vstd::seq_lib::group_to_multiset_ensures;

    if steps.len() == 0 {
        assert(linear(p, steps) =~= steps);
    } else {
        let m = lemma_minimal_exists(t, p, steps);
        lemma_first_minimal(p, steps, 0, m);
        let i = first_minimal(p, steps, 0);
        let rest = steps.remove(i);
        lemma_steps_in_remove(p, steps, i);
        lemma_linear(t, p, rest);
        let tail = linear(p, rest);
        let all = linear(p, steps);
        assert(all =~= seq![steps[i]] + tail);
        assert(all.remove(0) =~= tail);
        assert(all.contains(all[0]));
        assert(steps.contains(steps[i]));
        assert(all.to_multiset() =~= tail.to_multiset().insert(steps[i])) by {
            assert(all.remove(0).to_multiset() =~= all.to_multiset().remove(all[0]));
        }
        assert(steps.to_multiset() =~= rest.to_multiset().insert(steps[i])) by {
            assert(steps.remove(i).to_multiset() =~= steps.to_multiset().remove(steps[i]));
        }
        assert forall|x: Step| #[trigger] all.contains(x) <==> steps.contains(x) by {
            assert(all.to_multiset().count(x) == steps.to_multiset().count(x));
        }
        assert forall|a: int, b: int| 0 <= a < b < all.len() implies !p.precedes(
            (#[trigger] all[b]).id as int,
            (#[trigger] all[a]).id as int,
        ) by {
            assert(all[b] == tail[b - 1]);
            if a == 0 {
                assert(tail.contains(tail[b - 1]));
                assert(rest.contains(all[b]));
                let k = choose|k: int| 0 <= k < rest.len() && rest[k] == all[b];
                let at = if k < i {
                    k
                } else {
                    k + 1
                };
                assert(steps[at] == all[b]);
                assert(!p.precedes(steps[at].id as int, steps[i].id as int));
            } else {
                assert(all[a] == tail[a - 1]);
            }
        }
    }
}

/// The linearization of a plan lists each of its steps once, and no step before
/// one that precedes it.
pub proof fn linearization_is_topological(t: TaskView, p: PlanView)
    requires
        p.wf(t),
    ensures
        linear(p, p.steps).to_multiset() == p.steps.to_multiset(),
        is_topological(p, linear(p, p.steps)),
        linearization(p).len() == p.steps.len(),
        operators_in(t, linearization(p)),
{
    assert(steps_in(p, p.steps)) by {
        assert forall|i: int| 0 <= i < p.steps.len() implies p.is_step((#[trigger] p.steps[i]).id as int) && p.steps[p.steps[i].id - 1]
            == p.steps[i] by {
            assert(p.steps[i].id == i + 1);
        }
    }
    lemma_linear(t, p, p.steps);
    let steps = linear(p, p.steps);
    assert forall|k: int| 0 <= k < linearization(p).len() implies #[trigger] linearization(p)[k] < t.operators.len() by {
        assert(steps.contains(steps[k]));
        let i = choose|i: int| 0 <= i < p.steps.len() && p.steps[i] == steps[k];
        assert(p.steps[i].operator < t.operators.len());
    }
}

/// Whether `before` precedes `after` in every linearization.
pub fn is_ordered_before(plan: &PartialPlan, before: usize, after: usize) -> (res: bool)
    requires
        plan.orderings.wf(),
        plan.orderings.high() == plan@.steps.len(),
        plan@.is_step(before as int),
        plan@.is_step(after as int),
    ensures
        res == plan@.precedes(before as int, after as int),
{
    before != after && !plan.may_precede(after, before)
}

/// Returns the plan's deterministic topological linearization if it executes
/// under the SAS+ transition semantics. This is the search's validity oracle:
/// no sequence of operators that fails to reach the goals gets out as a plan.
pub fn linearize_and_validate(plan: &PartialPlan, task: &Task) -> (res: Option<Vec<usize>>)
    requires
        task.wf(),
        task@.axioms_converge(),
        plan.wf(task@),
    ensures
        match res {
            Some(operators) => operators@ == linearization(plan@) && executes(task@, operators@),
            None => !executes(task@, linearization(plan@)),
        },
{
    let ghost t = task@;
    let ghost p = plan@;
    let mut remaining = copy_vec(&*plan.steps);
    let mut operators: Vec<usize> = Vec::new();
    proof {
        linearization_is_topological(t, p);
        assert(steps_in(p, remaining@)) by {
            assert forall|i: int| 0 <= i < p.steps.len() implies p.is_step((#[trigger] p.steps[i]).id as int) && p.steps[p.steps[i].id
                - 1] == p.steps[i] by {
                assert(p.steps[i].id == i + 1);
            }
        }
        assert(operators@ + step_operators(linear(p, remaining@)) =~= linearization(p));
    }
    while remaining.len() > 0
        invariant
            t == task@,
            p == plan@,
            plan.wf(t),
            steps_in(p, remaining@),
            operators@ + step_operators(linear(p, remaining@)) == linearization(p),
        decreases remaining@.len(),
    {
        let ghost steps = remaining@;
        let ghost m = lemma_minimal_exists(t, p, steps);
        proof {
            lemma_first_minimal(p, steps, 0, m);
        }
        let mut index: usize = 0;
        let mut found = false;
        while !found
            invariant
                t == task@,
                p == plan@,
                plan.wf(t),
                steps == remaining@,
                steps_in(p, steps),
                0 <= m < steps.len(),
                is_minimal(p, steps, m),
                index <= m,
                first_minimal(p, steps, 0) == first_minimal(p, steps, index as int),
                found ==> is_minimal(p, steps, index as int),
            decreases steps.len() - index, !found as int,
        {
            let mut minimal = true;
            let mut j: usize = 0;
            while j < remaining.len() && minimal
                invariant
                    t == task@,
                    p == plan@,
                    plan.wf(t),
                    steps == remaining@,
                    steps_in(p, steps),
                    index < steps.len(),
                    j <= steps.len(),
                    minimal ==> forall|k: int| 0 <= k < j ==> !p.precedes((#[trigger] steps[k]).id as int, steps[index as int].id as int),
                    !minimal ==> !is_minimal(p, steps, index as int),
                decreases steps.len() - j, minimal as int,
            {
                assert(p.is_step(steps[j as int].id as int));
                assert(p.is_step(steps[index as int].id as int));
                if is_ordered_before(plan, remaining[j].id, remaining[index].id) {
                    minimal = false;
                } else {
                    j = j + 1;
                }
            }
            if minimal {
                found = true;
            } else {
                index = index + 1;
            }
        }
        let step = remaining.remove(index);
        proof {
            lemma_steps_in_remove(p, steps, index as int);
            assert(remaining@ =~= steps.remove(index as int));
            let tail = linear(p, remaining@);
            assert(linear(p, steps) =~= seq![step] + tail);
            assert(step_operators(linear(p, steps)) =~= seq![step.operator] + step_operators(tail));
            assert(operators@.push(step.operator) + step_operators(tail) =~= operators@ + step_operators(linear(p, steps)));
        }
        operators.push(step.operator);
    }
    proof {
        assert(step_operators(linear(p, remaining@)) =~= Seq::<usize>::empty());
        assert(operators@ =~= linearization(p));
    }
    if validate(task, &operators) {
        Some(operators)
    } else {
        None
    }
}

} // verus!
