//! LM-cut over finite-domain tasks.
//!
//! Each finite-domain equality becomes one proposition; multi-effect operators
//! keep one action label.
use vstd::prelude::*;

use crate::fdr::{
    count_facts, fact_in, facts_in, is_precondition, lemma_precondition_in, lemma_same_facts, operator_in, EffectView, Fact,
    OperatorView, Task, TaskView, VariableView,
};
use crate::lmcut::{
    action_views, actions_in, below, is_lm_cut_result, tidied, ActionView, BuildError,
    RelaxedAction, RelaxedTask,
};
use crate::params::ActionCost;
use crate::supports::{base_clauses, clauses, supports_are_base_facts, supports_of};

verus! {

/// The number of the fact's proposition: the facts of the variables before it,
/// then the values.
pub open spec fn number(variables: Seq<VariableView>, fact: Fact) -> int {
    count_facts(variables.take(fact.variable as int)) + fact.value
}

pub proof fn lemma_count_take(variables: Seq<VariableView>, v: int)
    requires
        0 <= v < variables.len(),
    ensures
        count_facts(variables.take(v + 1)) == count_facts(variables.take(v)) + variables[v].values.len(),
        count_facts(variables.take(v + 1)) <= count_facts(variables),
{
    assert(variables.take(v + 1).drop_last() =~= variables.take(v));
    lemma_count_prefix(variables, v + 1);
}

proof fn lemma_count_prefix(variables: Seq<VariableView>, k: int)
    requires
        0 <= k <= variables.len(),
    ensures
        count_facts(variables.take(k)) <= count_facts(variables),
    decreases variables.len(),
{
    if k < variables.len() {
        assert(variables.drop_last().take(k) =~= variables.take(k));
        lemma_count_prefix(variables.drop_last(), k);
    } else {
        assert(variables.take(k) =~= variables);
    }
}

pub proof fn lemma_number(variables: Seq<VariableView>, fact: Fact)
    requires
        fact_in(variables, fact),
    ensures
        0 <= number(variables, fact) < count_facts(variables),
{
    lemma_count_take(variables, fact.variable as int);
}

/// Different facts have different propositions.
pub proof fn numbers_differ(variables: Seq<VariableView>, a: Fact, b: Fact)
    requires
        fact_in(variables, a),
        fact_in(variables, b),
        number(variables, a) == number(variables, b),
    ensures
        a == b,
{
    if a.variable < b.variable {
        lemma_count_take(variables, a.variable as int);
        lemma_count_mono(variables, a.variable + 1, b.variable as int);
    } else if b.variable < a.variable {
        lemma_count_take(variables, b.variable as int);
        lemma_count_mono(variables, b.variable + 1, a.variable as int);
    }
}

proof fn lemma_count_mono(variables: Seq<VariableView>, i: int, j: int)
    requires
        0 <= i <= j <= variables.len(),
    ensures
        count_facts(variables.take(i)) <= count_facts(variables.take(j)),
{
    lemma_count_prefix(variables.take(j), i);
    assert(variables.take(j).take(i) =~= variables.take(i));
}

/// The offsets number the facts of the variables.
pub open spec fn numbers_facts(offsets: Seq<usize>, variables: Seq<VariableView>) -> bool {
    &&& offsets.len() == variables.len()
    &&& forall|v: int| 0 <= v < variables.len() ==> #[trigger] offsets[v] == count_facts(variables.take(v))
    &&& count_facts(variables) <= usize::MAX
}

pub open spec fn numbers(variables: Seq<VariableView>, facts: Seq<Fact>) -> Seq<usize> {
    facts.map_values(|f: Fact| number(variables, f) as usize)
}

/// The complete applicability condition of the operator.
pub open spec fn preconditions_of(o: OperatorView) -> Seq<Fact> {
    choose|s: Seq<Fact>| is_precondition(o, s)
}

pub proof fn lemma_preconditions_of(o: OperatorView, s: Seq<Fact>)
    requires
        is_precondition(o, s),
    ensures
        preconditions_of(o) == s,
{
    let p = preconditions_of(o);
    assert(is_precondition(o, p));
    assert forall|f: Fact| p.contains(f) <==> s.contains(f) by {}
    lemma_same_facts(p, s);
}

pub open spec fn assignments(effects: Seq<EffectView>) -> Seq<Fact> {
    effects.map_values(|e: EffectView| Fact { variable: e.variable, value: e.post })
}

/// The relaxed action of an operator.
pub open spec fn operator_action(t: TaskView, cost: ActionCost, o: OperatorView) -> ActionView {
    ActionView {
        pre: numbers(t.variables, preconditions_of(o)),
        add: numbers(t.variables, assignments(o.effects)),
        cost: cost.cost_of(o.cost) as u32,
    }
}

/// The free relaxed actions that derive a fact from its supports.
pub open spec fn support_actions(t: TaskView, fact: Fact, supports: Seq<Seq<Fact>>) -> Seq<ActionView> {
    supports.map_values(
        |s: Seq<Fact>|
            ActionView { pre: numbers(t.variables, s), add: seq![number(t.variables, fact) as usize], cost: 0 },
    )
}

/// The support actions of the values of variable `v`, up to value `w`.
pub open spec fn value_actions(t: TaskView, v: nat, w: nat) -> Seq<ActionView>
    decreases w,
{
    if w == 0 {
        Seq::empty()
    } else {
        let fact = Fact { variable: v as usize, value: (w - 1) as usize };
        value_actions(t, v, (w - 1) as nat) + support_actions(t, fact, supports_of(t, fact))
    }
}

/// The support actions of the derived variables below `v`.
pub open spec fn derived_actions(t: TaskView, v: nat) -> Seq<ActionView>
    decreases v,
{
    if v == 0 {
        Seq::empty()
    } else {
        let before = derived_actions(t, (v - 1) as nat);
        if t.derived(v - 1) {
            before + value_actions(t, (v - 1) as nat, t.variables[v - 1].values.len())
        } else {
            before
        }
    }
}

/// The delete relaxation of the task: its operators and the free actions that
/// derive facts.
pub open spec fn relaxation(t: TaskView, cost: ActionCost) -> Seq<ActionView> {
    t.operators.map_values(|o: OperatorView| operator_action(t, cost, o)) + derived_actions(t, t.variables.len())
}

/// The initial facts of the variables below `v` that are not derived.
pub open spec fn initial_facts(t: TaskView, v: nat) -> Seq<Fact>
    decreases v,
{
    if v == 0 {
        Seq::empty()
    } else {
        let before = initial_facts(t, (v - 1) as nat);
        if t.derived(v - 1) {
            before
        } else {
            before.push(Fact { variable: (v - 1) as usize, value: t.initial[v - 1] })
        }
    }
}

pub open spec fn has_conditions(o: OperatorView) -> bool {
    exists|i: int| 0 <= i < o.effects.len() && (#[trigger] o.effects[i]).conditions.len() > 0
}

/// Whether native LM-cut takes the operator.
pub open spec fn operator_fits(o: OperatorView, cost: ActionCost) -> bool {
    !has_conditions(o) && cost.cost_of(o.cost) <= u32::MAX
}

/// FDR-specific adapter used by ground POCL search. It propositionizes each
/// finite-domain equality while retaining multi-effect action labels.
pub struct FdrLmCut {
    relaxation: RelaxedTask,
    offsets: Vec<usize>,
    initial: Vec<usize>,
    source: Ghost<TaskView>,
}

/// The number of the first fact of each variable.
pub(crate) fn fact_offsets(task: &Task) -> (offsets: Vec<usize>)
    requires
        count_facts(task@.variables) <= usize::MAX,
    ensures
        numbers_facts(offsets@, task@.variables),
{
    let ghost vs = task@.variables;
    let mut offsets: Vec<usize> = Vec::new();
    let mut total: usize = 0;
    let mut v: usize = 0;
    assert(vs.take(0) =~= Seq::<VariableView>::empty());
    while v < task.variables.len()
        invariant
            vs == task@.variables,
            count_facts(vs) <= usize::MAX,
            v <= vs.len(),
            offsets@.len() == v,
            total == count_facts(vs.take(v as int)),
            forall|k: int| 0 <= k < v ==> #[trigger] offsets@[k] == count_facts(vs.take(k)),
        decreases vs.len() - v,
    {
        proof {
            lemma_count_take(vs, v as int);
        }
        assert(vs[v as int] == task.variables@[v as int]@);
        offsets.push(total);
        total = total + task.variables[v].values.len();
        v = v + 1;
    }
    offsets
}

pub(crate) fn numbered(offsets: &Vec<usize>, fact: Fact, Ghost(variables): Ghost<Seq<VariableView>>) -> (res: usize)
    requires
        numbers_facts(offsets@, variables),
        fact_in(variables, fact),
    ensures
        res == number(variables, fact),
{
    proof {
        lemma_number(variables, fact);
    }
    offsets[fact.variable] + fact.value
}

pub(crate) fn numbered_all(offsets: &Vec<usize>, facts: &Vec<Fact>, Ghost(variables): Ghost<Seq<VariableView>>) -> (res: Vec<usize>)
    requires
        numbers_facts(offsets@, variables),
        facts_in(variables, facts@),
    ensures
        res@ == numbers(variables, facts@),
{
    let mut res: Vec<usize> = Vec::new();
    let mut i: usize = 0;
    while i < facts.len()
        invariant
            numbers_facts(offsets@, variables),
            facts_in(variables, facts@),
            i <= facts@.len(),
            res@.len() == i,
            forall|k: int| 0 <= k < i ==> #[trigger] res@[k] == numbers(variables, facts@)[k],
        decreases facts@.len() - i,
    {
        assert(fact_in(variables, facts@[i as int]));
        proof {
            lemma_number(variables, facts@[i as int]);
        }
        res.push(numbered(offsets, facts[i], Ghost(variables)));
        i = i + 1;
    }
    assert(res@ =~= numbers(variables, facts@));
    res
}

pub proof fn lemma_numbers_below(variables: Seq<VariableView>, facts: Seq<Fact>)
    requires
        facts_in(variables, facts),
        count_facts(variables) <= usize::MAX,
    ensures
        below(numbers(variables, facts), count_facts(variables)),
{
    assert forall|i: int| 0 <= i < facts.len() implies #[trigger] numbers(variables, facts)[i] < count_facts(variables) by {
        assert(fact_in(variables, facts[i]));
        lemma_number(variables, facts[i]);
    }
}

impl FdrLmCut {
    pub closed spec fn graph(&self) -> RelaxedTask {
        self.relaxation
    }

    /// The task that the relaxation was built from.
    pub closed spec fn task(&self) -> TaskView {
        self.source@
    }

    pub closed spec fn wf(&self) -> bool {
        let t = self.task();
        &&& self.relaxation.wf()
        &&& self.relaxation.facts() == count_facts(t.variables)
        &&& count_facts(t.variables) < usize::MAX
        &&& self.offsets@.len() == t.variables.len()
        &&& forall|v: int| 0 <= v < t.variables.len() ==> #[trigger] self.offsets@[v] == count_facts(t.variables.take(v))
        &&& self.initial@ == numbers(t.variables, initial_facts(t, t.variables.len()))
        &&& below(self.initial@, count_facts(t.variables))
    }

    /// The graph holds the delete relaxation of the task.
    pub open spec fn relaxes(&self, t: TaskView, cost: ActionCost) -> bool {
        let acts = relaxation(t, cost);
        &&& self.graph().acts().len() == acts.len()
        &&& forall|a: int| 0 <= a < acts.len() ==> tidied(acts[a], #[trigger] self.graph().acts()[a])
    }

    /// Builds the relaxation of the task. Fails on the first operator with
    /// conditional effects or with a cost beyond the `u32` range.
    pub fn new(task: &Task, action_cost: ActionCost) -> (res: Result<Self, BuildError>)
        requires
            task.wf(),
            count_facts(task@.variables) < usize::MAX,
        ensures
            match res {
                Ok(lm) => {
                    &&& lm.wf()
                    &&& lm.task() == task@
                    &&& lm.relaxes(task@, action_cost)
                    &&& forall|i: int| 0 <= i < task@.operators.len() ==> operator_fits(#[trigger] task@.operators[i], action_cost)
                },
                Err(e) => exists|i: int|
                    {
                        &&& 0 <= i < task@.operators.len()
                        &&& forall|k: int| 0 <= k < i ==> operator_fits(#[trigger] task@.operators[k], action_cost)
                        &&& match e {
                            BuildError::ConditionalEffects { operator } => has_conditions(#[trigger] task@.operators[i]) && operator@
                                == task@.operators[i].name,
                            BuildError::ActionCostTooLarge { operator, cost } => !has_conditions(task@.operators[i]) && operator@
                                == task@.operators[i].name && cost == action_cost.cost_of(task@.operators[i].cost) && cost > u32::MAX,
                            BuildError::InvalidFact { .. } => false,
                        }
                    },
            },
    {
        let ghost t = task@;
        let ghost vs = t.variables;
        let ghost total = count_facts(vs);
        let offsets = fact_offsets(task);
        let num_facts = task.num_facts();
        let mut actions: Vec<RelaxedAction> = Vec::new();
        let mut i: usize = 0;
        let ghost ops = t.operators.map_values(|o: OperatorView| operator_action(t, action_cost, o));
        assert(action_views(actions@) =~= ops.take(0));
        while i < task.operators.len()
            invariant
                t == task@,
                t.wf(),
                vs == t.variables,
                count_facts(vs) < usize::MAX,
                offsets@.len() == vs.len(),
                forall|v: int| 0 <= v < vs.len() ==> #[trigger] offsets@[v] == count_facts(vs.take(v)),
                i <= t.operators.len(),
                ops == t.operators.map_values(|o: OperatorView| operator_action(t, action_cost, o)),
                action_views(actions@) == ops.take(i as int),
                actions_in(action_views(actions@), count_facts(vs)),
                forall|k: int| 0 <= k < i ==> operator_fits(#[trigger] t.operators[k], action_cost),
            decreases t.operators.len() - i,
        {
            let operator = &task.operators[i];
            let ghost o = t.operators[i as int];
            assert(o == operator@);
            assert(operator_in(vs, o));
            let mut assigned: Vec<Fact> = Vec::new();
            let mut k: usize = 0;
            while k < operator.effects.len()
                invariant
                    t == task@,
                    vs == t.variables,
                    o == operator@,
                    i < t.operators.len(),
                    o == t.operators[i as int],
                    operator_in(vs, o),
                    k <= o.effects.len(),
                    assigned@.len() == k,
                    forall|j: int| 0 <= j < k ==> #[trigger] assigned@[j] == assignments(o.effects)[j],
                    forall|j: int| 0 <= j < k ==> (#[trigger] o.effects[j]).conditions.len() == 0,
                    facts_in(vs, assigned@),
                    forall|k: int| 0 <= k < i ==> operator_fits(#[trigger] t.operators[k], action_cost),
                decreases o.effects.len() - k,
            {
                let effect = &operator.effects[k];
                assert(o.effects[k as int] == effect@);
                if effect.conditions.len() > 0 {
                    let name = operator.name.clone();
                    assert(has_conditions(t.operators[i as int]));
                    return Err(BuildError::ConditionalEffects { operator: name });
                }
                assert(crate::fdr::effect_in(vs, o.effects[k as int]));
                assigned.push(effect.assignment());
                k = k + 1;
            }
            assert(assigned@ =~= assignments(o.effects));
            assert(!has_conditions(o));
            let cost = action_cost.resolve(operator.cost);
            if cost > u32::MAX as usize {
                let name = operator.name.clone();
                assert(!has_conditions(t.operators[i as int]));
                return Err(BuildError::ActionCostTooLarge { operator: name, cost });
            }
            let pre = operator.preconditions();
            proof {
                lemma_preconditions_of(o, pre@);
                lemma_precondition_in(vs, o, pre@);
                lemma_numbers_below(vs, pre@);
                lemma_numbers_below(vs, assigned@);
            }
            let pre = numbered_all(&offsets, &pre, Ghost(vs));
            let add = numbered_all(&offsets, &assigned, Ghost(vs));
            let ghost before = action_views(actions@);
            let action = RelaxedAction::new(pre, add, cost as u32);
            let ghost view = action@;
            actions.push(action);
            proof {
                assert(action_views(actions@) =~= before.push(view));
                assert(view == ops[i as int]);
                assert(ops.take(i + 1) =~= ops.take(i as int).push(ops[i as int]));
            }
            i = i + 1;
        }
        assert(ops.take(i as int) =~= ops);
        let mut initial: Vec<usize> = Vec::new();
        let mut v: usize = 0;
        assert(numbers(vs, initial_facts(t, 0)) =~= initial@);
        assert(ops + derived_actions(t, 0) =~= ops);
        while v < task.variables.len()
            invariant
                t == task@,
                task.wf(),
                t.wf(),
                vs == t.variables,
                count_facts(vs) < usize::MAX,
                offsets@.len() == vs.len(),
                forall|v: int| 0 <= v < vs.len() ==> #[trigger] offsets@[v] == count_facts(vs.take(v)),
                v <= vs.len(),
                action_views(actions@) == ops + derived_actions(t, v as nat),
                actions_in(action_views(actions@), count_facts(vs)),
                initial@ == numbers(vs, initial_facts(t, v as nat)),
                below(initial@, count_facts(vs)),
            decreases vs.len() - v,
        {
            assert(vs[v as int] == task.variables@[v as int]@);
            if task.is_derived_variable(v) {
                let ghost before = action_views(actions@);
                let size = task.variables[v].values.len();
                let mut w: usize = 0;
                assert(before + value_actions(t, v as nat, 0) =~= before);
                while w < size
                    invariant
                        t == task@,
                        task.wf(),
                        t.wf(),
                        vs == t.variables,
                        count_facts(vs) < usize::MAX,
                        offsets@.len() == vs.len(),
                        forall|v: int| 0 <= v < vs.len() ==> #[trigger] offsets@[v] == count_facts(vs.take(v)),
                        v < vs.len(),
                        size == vs[v as int].values.len(),
                        t.derived(v as int),
                        w <= size,
                        action_views(actions@) == before + value_actions(t, v as nat, w as nat),
                        actions_in(action_views(actions@), count_facts(vs)),
                    decreases size - w,
                {
                    let fact = Fact::new(v, w);
                    let ghost mid = action_views(actions@);
                    if let Some(supports) = task.derived_supports(fact) {
                        let ghost sv = clauses(supports@);
                        let ghost more = support_actions(t, fact, sv);
                        proof {
                            supports_are_base_facts(task, fact);
                            lemma_number(vs, fact);
                        }
                        let mut k: usize = 0;
                        assert(mid + more.take(0) =~= mid);
                        while k < supports.len()
                            invariant
                                t == task@,
                                vs == t.variables,
                                count_facts(vs) < usize::MAX,
                                offsets@.len() == vs.len(),
                                forall|v: int| 0 <= v < vs.len() ==> #[trigger] offsets@[v] == count_facts(vs.take(v)),
                                fact_in(vs, fact),
                                number(vs, fact) < count_facts(vs),
                                sv == clauses(supports@),
                                base_clauses(t, sv),
                                more == support_actions(t, fact, sv),
                                k <= supports@.len(),
                                action_views(actions@) == mid + more.take(k as int),
                                actions_in(action_views(actions@), count_facts(vs)),
                            decreases supports@.len() - k,
                        {
                            let support = &supports[k];
                            assert(sv[k as int] == support@);
                            assert(crate::supports::base_clause(t, sv[k as int]));
                            assert(facts_in(vs, support@)) by {
                                assert forall|j: int| 0 <= j < support@.len() implies fact_in(vs, #[trigger] support@[j]) by {
                                    assert(fact_in(vs, sv[k as int][j]));
                                }
                            }
                            let pre = numbered_all(&offsets, support, Ghost(vs));
                            let mut add: Vec<usize> = Vec::new();
                            add.push(numbered(&offsets, fact, Ghost(vs)));
                            assert(add@ =~= seq![number(vs, fact) as usize]);
                            proof {
                                lemma_numbers_below(vs, support@);
                            }
                            let ghost now = action_views(actions@);
                            let action = RelaxedAction::new(pre, add, 0);
                            let ghost view = action@;
                            actions.push(action);
                            proof {
                                assert(action_views(actions@) =~= now.push(view));
                                assert(view == more[k as int]);
                                assert(mid + more.take(k + 1) =~= (mid + more.take(k as int)).push(more[k as int]));
                            }
                            k = k + 1;
                        }
                        assert(more.take(k as int) =~= more);
                        assert(mid + more =~= before + value_actions(t, v as nat, (w + 1) as nat));
                    }
                    w = w + 1;
                }
                assert(before + value_actions(t, v as nat, size as nat) =~= ops + derived_actions(t, (v + 1) as nat));
            } else {
                let fact = Fact::new(v, task.initial[v]);
                assert(fact_in(vs, fact)) by {
                    assert(t.initial[v as int] < vs[v as int].values.len());
                }
                let ghost before = initial@;
                proof {
                    lemma_number(vs, fact);
                }
                initial.push(numbered(&offsets, fact, Ghost(vs)));
                assert(initial@ =~= numbers(vs, initial_facts(t, (v + 1) as nat)));
            }
            v = v + 1;
        }
        let ghost acts = action_views(actions@);
        assert(acts == relaxation(t, action_cost));
        let relaxation = match RelaxedTask::new(num_facts, actions) {
            Ok(r) => r,
            Err(e) => {
                assert(false);
                return Err(e);
            },
        };
        let lm = FdrLmCut { relaxation, offsets, initial, source: Ghost(t) };
        proof {
            assert forall|a: int| 0 <= a < acts.len() implies tidied(acts[a], #[trigger] lm.graph().acts()[a]) by {
                assert(actions@[a]@ == acts[a]);
            }
        }
        Ok(lm)
    }

    /// The LM-cut value of the goals, with the reusable facts free of charge.
    pub fn evaluate(&self, reusable: &Vec<Fact>, goals: &Vec<Fact>) -> (res: Option<u32>)
        requires
            self.wf(),
            facts_in(self.task().variables, reusable@),
            facts_in(self.task().variables, goals@),
        ensures
            ({
                let t = self.task();
                let acts = self.graph().acts();
                let start = numbers(t.variables, initial_facts(t, t.variables.len())) + numbers(t.variables, reusable@);
                let ends = numbers(t.variables, goals@);
                &&& goals@.len() == 0 ==> res == Some(0u32)
                &&& is_lm_cut_result(acts, start, ends, res)
            }),
    {
        let ghost t = self.task();
        let ghost vs = t.variables;
        let mut initial = crate::text::copy_vec(&self.initial);
        let mut more = numbered_all(&self.offsets, reusable, Ghost(vs));
        let ends = numbered_all(&self.offsets, goals, Ghost(vs));
        proof {
            lemma_numbers_below(vs, goals@);
            lemma_numbers_below(vs, reusable@);
        }
        let ghost extra = more@;
        initial.append(&mut more);
        assert(initial@ =~= self.initial@ + extra);
        self.relaxation.evaluate(&initial, &ends)
    }
}

} // verus!
