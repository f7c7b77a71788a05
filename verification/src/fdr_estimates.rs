//! Finite-domain estimates: what ground POCL search reads off a task.
use std::rc::Rc;

use vstd::prelude::*;

use crate::fdr::{
    count_facts, effect_in, fact_in, facts_in, lemma_precondition_in, operator_in, EffectView, Fact, OperatorView, Task, TaskView,
    VariableView,
};
use crate::fdr_lmcut::{
    assignments, fact_offsets, initial_facts, lemma_count_take, lemma_number, lemma_numbers_below, lemma_preconditions_of, number,
    numbered, numbered_all, numbers, numbers_differ, numbers_facts, operator_fits, preconditions_of,
    FdrLmCut,
};
use crate::fdr_plan::{OpenCondition, PartialPlan, PlanView};
use crate::lmcut::{is_lm_cut_result, BuildError};
use crate::params::ActionCost;
use crate::relax::{
    are_earlier, body_sum, estimates_agree, is_estimate, is_swept, lemma_best_is_exact, lemma_zeroed, noted_rules_are_well_founded, rule_in,
    rule_views, rules_in, saturate, supported_by, sweeps_agree, swept, zeroed, Rule, RuleView, Sweep,
};
use crate::supports::{base_clauses, clauses, supports_are_base_facts, supports_of};
use crate::text::copy_vec;

verus! {

/// An effect of an operator.
#[derive(Debug, Clone, Copy, PartialEq, Eq, Structural)]
pub struct Achiever {
    pub operator: usize,
    pub effect: usize,
}

/// The first `n` effects of the operator that assign the fact.
pub open spec fn effect_achievers(effects: Seq<EffectView>, operator: usize, fact: Fact, n: nat) -> Seq<Achiever>
    decreases n,
{
    if n == 0 {
        Seq::empty()
    } else {
        let before = effect_achievers(effects, operator, fact, (n - 1) as nat);
        if assignments(effects)[n - 1] == fact {
            before.push(Achiever { operator, effect: (n - 1) as usize })
        } else {
            before
        }
    }
}

/// The effects of the first `n` operators that assign the fact.
pub open spec fn operator_achievers(t: TaskView, fact: Fact, n: nat) -> Seq<Achiever>
    decreases n,
{
    if n == 0 {
        Seq::empty()
    } else {
        operator_achievers(t, fact, (n - 1) as nat) + effect_achievers(
            t.operators[n - 1].effects,
            (n - 1) as usize,
            fact,
            t.operators[n - 1].effects.len(),
        )
    }
}

/// Every effect that assigns the fact, in the order of the operators and effects.
pub open spec fn achievers_of(t: TaskView, fact: Fact) -> Seq<Achiever> {
    operator_achievers(t, fact, t.operators.len())
}

/// An achiever is an effect of an operator that assigns the fact.
pub open spec fn achieves(t: TaskView, fact: Fact, a: Achiever) -> bool {
    &&& a.operator < t.operators.len()
    &&& a.effect < t.operators[a.operator as int].effects.len()
    &&& assignments(t.operators[a.operator as int].effects)[a.effect as int] == fact
}

/// The operators and their effects can be counted.
pub open spec fn sizes_fit(t: TaskView) -> bool {
    &&& t.operators.len() <= usize::MAX
    &&& forall|i: int| 0 <= i < t.operators.len() ==> (#[trigger] t.operators[i]).effects.len() <= usize::MAX
}

pub proof fn lemma_sizes_fit(task: &Task)
    ensures
        sizes_fit(task@),
{
    assert(task.operators.len() == task.operators@.len());
    assert forall|i: int| 0 <= i < task@.operators.len() implies (#[trigger] task@.operators[i]).effects.len() <= usize::MAX by {
        assert(task@.operators[i] == task.operators@[i]@);
        assert(task.operators@[i].effects.len() == task.operators@[i].effects@.len());
    }
}

proof fn lemma_effect_achievers(t: TaskView, o: int, fact: Fact, n: nat)
    requires
        sizes_fit(t),
        0 <= o < t.operators.len(),
        n <= t.operators[o].effects.len(),
    ensures
        forall|i: int|
            0 <= i < effect_achievers(t.operators[o].effects, o as usize, fact, n).len() ==> achieves(
                t,
                fact,
                #[trigger] effect_achievers(t.operators[o].effects, o as usize, fact, n)[i],
            ),
    decreases n,
{
    if n > 0 {
        lemma_effect_achievers(t, o, fact, (n - 1) as nat);
        let before = effect_achievers(t.operators[o].effects, o as usize, fact, (n - 1) as nat);
        let after = effect_achievers(t.operators[o].effects, o as usize, fact, n);
        assert forall|i: int| 0 <= i < after.len() implies achieves(t, fact, #[trigger] after[i]) by {
            if i < before.len() {
                assert(after[i] == before[i]);
            }
        }
    }
}

proof fn lemma_operator_achievers(t: TaskView, fact: Fact, n: nat)
    requires
        sizes_fit(t),
        n <= t.operators.len(),
    ensures
        forall|i: int|
            0 <= i < operator_achievers(t, fact, n).len() ==> achieves(t, fact, #[trigger] operator_achievers(t, fact, n)[i]),
    decreases n,
{
    if n > 0 {
        lemma_operator_achievers(t, fact, (n - 1) as nat);
        lemma_effect_achievers(t, n - 1, fact, t.operators[n - 1].effects.len());
        let before = operator_achievers(t, fact, (n - 1) as nat);
        let after = operator_achievers(t, fact, n);
        let more = effect_achievers(t.operators[n - 1].effects, (n - 1) as usize, fact, t.operators[n - 1].effects.len());
        assert forall|i: int| 0 <= i < after.len() implies achieves(t, fact, #[trigger] after[i]) by {
            if i < before.len() {
                assert(after[i] == before[i]);
            } else {
                assert(after[i] == more[i - before.len()]);
            }
        }
    }
}

/// The achievers of a fact are effects that assign it.
pub proof fn lemma_achievers(t: TaskView, fact: Fact)
    requires
        sizes_fit(t),
    ensures
        forall|i: int| 0 <= i < achievers_of(t, fact).len() ==> achieves(t, fact, #[trigger] achievers_of(t, fact)[i]),
{
    lemma_operator_achievers(t, fact, t.operators.len());
}

// ---------------------------------------------------------------------------
// The rules of the delete relaxation
// ---------------------------------------------------------------------------

/// The facts, then the first `n` further ones that are not among them.
pub open spec fn with_new(facts: Seq<Fact>, more: Seq<Fact>, n: nat) -> Seq<Fact>
    decreases n,
{
    if n == 0 {
        facts
    } else {
        let before = with_new(facts, more, (n - 1) as nat);
        if before.contains(more[n - 1]) {
            before
        } else {
            before.push(more[n - 1])
        }
    }
}

/// What the effect needs: the operator's applicability condition and its own conditions.
pub open spec fn requirements(o: OperatorView, e: int) -> Seq<Fact> {
    with_new(preconditions_of(o), o.effects[e].conditions, o.effects[e].conditions.len())
}

/// A fact follows from the facts of the body, by an effect or by the axioms.
#[verifier::ext_equal]
pub struct FactRule {
    pub label: Option<Achiever>,
    pub head: Fact,
    pub body: Seq<Fact>,
}

/// The rules of the first `n` effects of operator `o`.
pub open spec fn effect_rules(t: TaskView, o: nat, n: nat) -> Seq<FactRule>
    decreases n,
{
    if n == 0 {
        Seq::empty()
    } else {
        effect_rules(t, o, (n - 1) as nat).push(
            FactRule {
                label: Some(Achiever { operator: o as usize, effect: (n - 1) as usize }),
                head: assignments(t.operators[o as int].effects)[n - 1],
                body: requirements(t.operators[o as int], n - 1),
            },
        )
    }
}

/// The rules of the first `n` operators.
pub open spec fn operator_rules(t: TaskView, n: nat) -> Seq<FactRule>
    decreases n,
{
    if n == 0 {
        Seq::empty()
    } else {
        operator_rules(t, (n - 1) as nat) + effect_rules(t, (n - 1) as nat, t.operators[n - 1].effects.len())
    }
}

pub open spec fn support_rules(fact: Fact, supports: Seq<Seq<Fact>>) -> Seq<FactRule> {
    supports.map_values(|s: Seq<Fact>| FactRule { label: None, head: fact, body: s })
}

/// The rules that derive the first `w` values of variable `v`.
pub open spec fn value_rules(t: TaskView, v: nat, w: nat) -> Seq<FactRule>
    decreases w,
{
    if w == 0 {
        Seq::empty()
    } else {
        let fact = Fact { variable: v as usize, value: (w - 1) as usize };
        value_rules(t, v, (w - 1) as nat) + support_rules(fact, supports_of(t, fact))
    }
}

/// The rules that derive the values of the derived variables below `v`.
pub open spec fn derived_rules(t: TaskView, v: nat) -> Seq<FactRule>
    decreases v,
{
    if v == 0 {
        Seq::empty()
    } else {
        let before = derived_rules(t, (v - 1) as nat);
        if t.derived(v - 1) {
            before + value_rules(t, (v - 1) as nat, t.variables[v - 1].values.len())
        } else {
            before
        }
    }
}

/// All the ways in which a fact can become true.
pub open spec fn fact_rules(t: TaskView) -> Seq<FactRule> {
    operator_rules(t, t.operators.len()) + derived_rules(t, t.variables.len())
}

pub open spec fn numbered_rule(variables: Seq<VariableView>, r: FactRule) -> RuleView {
    RuleView { head: number(variables, r.head) as usize, body: numbers(variables, r.body) }
}

/// The rules over the numbers of the facts.
pub open spec fn relaxed_rules(t: TaskView) -> Seq<RuleView> {
    fact_rules(t).map_values(|r: FactRule| numbered_rule(t.variables, r))
}

/// The price of a rule: the cost of its operator.
pub open spec fn price(t: TaskView, cost: ActionCost, label: Option<Achiever>) -> u128 {
    match label {
        Some(a) => cost.cost_of(t.operators[a.operator as int].cost) as u128,
        None => 0,
    }
}

/// The work of a rule: one per operator.
pub open spec fn effort(label: Option<Achiever>) -> u128 {
    match label {
        Some(_) => 1,
        None => 0,
    }
}

pub open spec fn prices_of(t: TaskView, cost: ActionCost) -> Seq<u128> {
    fact_rules(t).map_values(|r: FactRule| price(t, cost, r.label))
}

pub open spec fn efforts_of(t: TaskView) -> Seq<u128> {
    fact_rules(t).map_values(|r: FactRule| effort(r.label))
}

pub open spec fn labels_of(t: TaskView) -> Seq<Option<Achiever>> {
    fact_rules(t).map_values(|r: FactRule| r.label)
}

/// An estimate that stands for a fact out of reach.
pub const UNREACHABLE: u128 = u128::MAX;

/// The work of a fact out of reach.
pub const ENDLESS: u128 = 0x7fff_ffff;

/// The estimates before any rule: the initial facts are free.
pub open spec fn start_values(t: TaskView, top: u128) -> Seq<u128> {
    zeroed(
        Seq::new(count_facts(t.variables), |i: int| top),
        numbers(t.variables, initial_facts(t, t.variables.len())),
    )
}

/// The facts that the steps of the plan assign.
pub open spec fn committed_facts(t: TaskView, p: PlanView, n: nat) -> Seq<Fact>
    decreases n,
{
    if n == 0 {
        Seq::empty()
    } else {
        committed_facts(t, p, (n - 1) as nat) + assignments(t.operators[p.steps[n - 1].operator as int].effects)
    }
}

/// The facts that come free of charge: with reuse, those that the steps assign.
pub open spec fn reused(t: TaskView, p: PlanView, reuse: bool) -> Seq<Fact> {
    if reuse {
        committed_facts(t, p, p.steps.len())
    } else {
        Seq::empty()
    }
}

/// The additive cost estimates for the plan.
pub open spec fn is_cost_estimate(t: TaskView, cost: ActionCost, p: PlanView, reuse: bool, values: Seq<u128>) -> bool {
    is_estimate(
        relaxed_rules(t),
        prices_of(t, cost),
        zeroed(start_values(t, UNREACHABLE), numbers(t.variables, reused(t, p, reuse))),
        values,
    )
}

/// The additive work estimates for the plan.
pub open spec fn is_work_estimate(t: TaskView, p: PlanView, reuse: bool, values: Seq<u128>) -> bool {
    is_estimate(
        relaxed_rules(t),
        efforts_of(t),
        zeroed(start_values(t, ENDLESS), numbers(t.variables, reused(t, p, reuse))),
        values,
    )
}

// ---------------------------------------------------------------------------
// The planner's tables
// ---------------------------------------------------------------------------

/// The variable is derived or assigned by some effect.
pub open spec fn has_effect(t: TaskView, variable: int) -> bool {
    t.derived(variable) || assigned(t, variable, t.operators.len())
}

/// One of the first `n` operators assigns the variable.
pub open spec fn assigned(t: TaskView, variable: int, n: nat) -> bool {
    exists|o: int| 0 <= o < n && effect_assigns((#[trigger] t.operators[o]).effects, variable, t.operators[o].effects.len())
}

/// One of the first `n` effects assigns the variable.
pub open spec fn effect_assigns(effects: Seq<EffectView>, variable: int, n: nat) -> bool {
    exists|e: int| 0 <= e < n && (#[trigger] effects[e]).variable == variable
}

/// The entry holds the supports of the fact if it is derived.
pub open spec fn supports_entry(t: TaskView, fact: Fact, entry: Option<Vec<Vec<Fact>>>) -> bool {
    match entry {
        Some(s) => t.derived(fact.variable as int) && clauses(s@) == supports_of(t, fact),
        None => !t.derived(fact.variable as int),
    }
}

/// Every entry holds the supports of its fact.
pub open spec fn supports_table(t: TaskView, table: Seq<Option<Vec<Vec<Fact>>>>) -> bool {
    &&& table.len() == count_facts(t.variables)
    &&& forall|f: Fact| #[trigger] fact_in(t.variables, f) ==> supports_entry(t, f, table[number(t.variables, f)])
}

/// Every entry holds the achievers of its fact.
pub open spec fn achievers_table(t: TaskView, table: Seq<Vec<Achiever>>) -> bool {
    &&& table.len() == count_facts(t.variables)
    &&& forall|f: Fact| #[trigger] fact_in(t.variables, f) ==> table[number(t.variables, f)]@ == achievers_of(t, f)
}

/// Every entry holds the complete applicability condition of its operator.
pub open spec fn preconditions_table(t: TaskView, table: Seq<Vec<Fact>>) -> bool {
    &&& table.len() == t.operators.len()
    &&& forall|o: int|
        0 <= o < t.operators.len() ==> (#[trigger] table[o])@ == preconditions_of(t.operators[o]) && facts_in(t.variables, table[o]@)
}

fn build_preconditions(task: &Task) -> (table: Vec<Vec<Fact>>)
    requires
        task.wf(),
    ensures
        preconditions_table(task@, table@),
{
    let ghost t = task@;
    let mut table: Vec<Vec<Fact>> = Vec::new();
    let mut i: usize = 0;
    while i < task.operators.len()
        invariant
            t == task@,
            task.wf(),
            i <= t.operators.len(),
            table@.len() == i,
            forall|o: int|
                0 <= o < i ==> (#[trigger] table@[o])@ == preconditions_of(t.operators[o]) && facts_in(t.variables, table@[o]@),
        decreases t.operators.len() - i,
    {
        let pre = task.operators[i].preconditions();
        proof {
            assert(t.operators[i as int] == task.operators@[i as int]@);
            assert(operator_in(t.variables, t.operators[i as int]));
            lemma_preconditions_of(t.operators[i as int], pre@);
            lemma_precondition_in(t.variables, t.operators[i as int], pre@);
        }
        table.push(pre);
        i = i + 1;
    }
    table
}

/// The achievers of every fact.
fn build_achievers(task: &Task, offsets: &Vec<usize>) -> (table: Vec<Vec<Achiever>>)
    requires
        task.wf(),
        numbers_facts(offsets@, task@.variables),
    ensures
        achievers_table(task@, table@),
{
    let ghost t = task@;
    let ghost vs = t.variables;
    let mut table: Vec<Vec<Achiever>> = Vec::new();
    let n = task.num_facts();
    let mut i: usize = 0;
    while i < n
        invariant
            i <= n,
            table@.len() == i,
            forall|k: int| 0 <= k < i ==> (#[trigger] table@[k])@ == Seq::<Achiever>::empty(),
        decreases n - i,
    {
        table.push(Vec::new());
        i = i + 1;
    }
    proof {
        assert forall|f: Fact| #[trigger] fact_in(vs, f) implies table@[number(vs, f)]@ == operator_achievers(t, f, 0) by {
            lemma_number(vs, f);
        }
    }
    let mut o: usize = 0;
    while o < task.operators.len()
        invariant
            t == task@,
            vs == t.variables,
            task.wf(),
            numbers_facts(offsets@, vs),
            o <= t.operators.len(),
            table@.len() == count_facts(vs),
            forall|f: Fact| #[trigger] fact_in(vs, f) ==> table@[number(vs, f)]@ == operator_achievers(t, f, o as nat),
        decreases t.operators.len() - o,
    {
        let operator = &task.operators[o];
        let ghost ov = t.operators[o as int];
        assert(ov == operator@);
        assert(operator_in(vs, ov));
        let mut e: usize = 0;
        proof {
            assert forall|f: Fact| #[trigger] fact_in(vs, f) implies table@[number(vs, f)]@ == operator_achievers(t, f, o as nat)
                + effect_achievers(ov.effects, o, f, 0) by {
                assert(operator_achievers(t, f, o as nat) + effect_achievers(ov.effects, o, f, 0) =~= operator_achievers(t, f, o as nat));
            }
        }
        while e < operator.effects.len()
            invariant
                t == task@,
                vs == t.variables,
                numbers_facts(offsets@, vs),
                o < t.operators.len(),
                ov == t.operators[o as int],
                ov == operator@,
                operator_in(vs, ov),
                e <= ov.effects.len(),
                table@.len() == count_facts(vs),
                forall|f: Fact| #[trigger]
                    fact_in(vs, f) ==> table@[number(vs, f)]@ == operator_achievers(t, f, o as nat) + effect_achievers(
                        ov.effects,
                        o,
                        f,
                        e as nat,
                    ),
            decreases ov.effects.len() - e,
        {
            let effect = &operator.effects[e];
            assert(ov.effects[e as int] == effect@);
            assert(effect_in(vs, ov.effects[e as int]));
            let fact = effect.assignment();
            proof {
                lemma_number(vs, fact);
            }
            let at = numbered(offsets, fact, Ghost(vs));
            let ghost before = table@;
            table[at].push(Achiever { operator: o, effect: e });
            proof {
                assert forall|f: Fact| #[trigger] fact_in(vs, f) implies table@[number(vs, f)]@ == operator_achievers(t, f, o as nat)
                    + effect_achievers(ov.effects, o, f, (e + 1) as nat) by {
                    lemma_number(vs, f);
                    let head = operator_achievers(t, f, o as nat);
                    let tail = effect_achievers(ov.effects, o, f, e as nat);
                    if f == fact {
                        assert(head + tail.push(Achiever { operator: o, effect: e }) =~= (head + tail).push(
                            Achiever { operator: o, effect: e },
                        ));
                    } else {
                        if number(vs, f) == number(vs, fact) {
                            numbers_differ(vs, f, fact);
                        }
                        assert(table@[number(vs, f)] == before[number(vs, f)]);
                    }
                }
            }
            e = e + 1;
        }
        o = o + 1;
    }
    table
}

/// The supports of every derived fact.
fn build_supports(task: &Task) -> (table: Vec<Option<Vec<Vec<Fact>>>>)
    requires
        task.wf(),
        count_facts(task@.variables) <= usize::MAX,
    ensures
        supports_table(task@, table@),
{
    let ghost t = task@;
    let ghost vs = t.variables;
    let mut table: Vec<Option<Vec<Vec<Fact>>>> = Vec::new();
    let mut v: usize = 0;
    assert(vs.take(0) =~= Seq::<VariableView>::empty());
    while v < task.variables.len()
        invariant
            t == task@,
            vs == t.variables,
            task.wf(),
            v <= vs.len(),
            table@.len() == count_facts(vs.take(v as int)),
            forall|f: Fact| #[trigger]
                fact_in(vs, f) && f.variable < v ==> number(vs, f) < table@.len() && supports_entry(t, f, table@[number(vs, f)]),
        decreases vs.len() - v,
    {
        assert(vs[v as int] == task.variables@[v as int]@);
        let size = task.variables[v].values.len();
        let mut w: usize = 0;
        while w < size
            invariant
                t == task@,
                vs == t.variables,
                task.wf(),
                v < vs.len(),
                size == vs[v as int].values.len(),
                w <= size,
                table@.len() == count_facts(vs.take(v as int)) + w,
                forall|f: Fact| #[trigger]
                    fact_in(vs, f) && (f.variable < v || (f.variable == v && f.value < w)) ==> number(vs, f) < table@.len()
                        && supports_entry(t, f, table@[number(vs, f)]),
            decreases size - w,
        {
            let fact = Fact::new(v, w);
            let entry = task.derived_supports(fact);
            let ghost before = table@;
            table.push(entry);
            proof {
                assert forall|f: Fact| #[trigger] fact_in(vs, f) && (f.variable < v || (f.variable == v && f.value < w + 1)) implies number(
                    vs,
                    f,
                ) < table@.len() && supports_entry(t, f, table@[number(vs, f)]) by {
                    if f.variable == v && f.value == w {
                        assert(f == fact);
                        assert(number(vs, f) == before.len());
                    } else {
                        assert(table@[number(vs, f)] == before[number(vs, f)]);
                    }
                }
            }
            w = w + 1;
        }
        proof {
            lemma_count_take(vs, v as int);
        }
        v = v + 1;
    }
    assert(vs.take(v as int) =~= vs);
    table
}

fn build_has_effect(task: &Task) -> (table: Vec<bool>)
    requires
        task.wf(),
    ensures
        table@.len() == task@.variables.len(),
        forall|v: int| 0 <= v < table@.len() ==> #[trigger] table@[v] == has_effect(task@, v),
{
    let ghost t = task@;
    let ghost vs = t.variables;
    let mut table: Vec<bool> = Vec::new();
    let mut v: usize = 0;
    while v < task.variables.len()
        invariant
            t == task@,
            vs == t.variables,
            v <= vs.len(),
            table@.len() == v,
            forall|k: int| 0 <= k < v ==> #[trigger] table@[k] == t.derived(k),
        decreases vs.len() - v,
    {
        table.push(task.is_derived_variable(v));
        v = v + 1;
    }
    proof {
        assert forall|k: int| 0 <= k < v implies #[trigger] table@[k] == (t.derived(k) || assigned(t, k, 0)) by {}
    }
    let mut o: usize = 0;
    while o < task.operators.len()
        invariant
            t == task@,
            vs == t.variables,
            task.wf(),
            o <= t.operators.len(),
            table@.len() == vs.len(),
            forall|k: int| 0 <= k < vs.len() ==> #[trigger] table@[k] == (t.derived(k) || assigned(t, k, o as nat)),
        decreases t.operators.len() - o,
    {
        let operator = &task.operators[o];
        let ghost effects = t.operators[o as int].effects;
        assert(t.operators[o as int] == operator@);
        assert(operator_in(vs, t.operators[o as int]));
        let mut e: usize = 0;
        let ghost start = table@;
        while e < operator.effects.len()
            invariant
                vs == t.variables,
                o < t.operators.len(),
                effects == t.operators[o as int].effects,
                effects == operator@.effects,
                operator_in(vs, t.operators[o as int]),
                e <= effects.len(),
                table@.len() == vs.len(),
                start.len() == vs.len(),
                forall|k: int| 0 <= k < vs.len() ==> #[trigger] table@[k] == (start[k] || effect_assigns(effects, k, e as nat)),
            decreases effects.len() - e,
        {
            let variable = operator.effects[e].variable;
            assert(effects[e as int] == operator.effects@[e as int]@);
            assert(effect_in(vs, effects[e as int]));
            let ghost before = table@;
            table.set(variable, true);
            proof {
                assert forall|k: int| 0 <= k < vs.len() implies #[trigger] table@[k] == (start[k] || effect_assigns(
                    effects,
                    k,
                    (e + 1) as nat,
                )) by {
                    assert(before[k] == (start[k] || effect_assigns(effects, k, e as nat)));
                    if effect_assigns(effects, k, e as nat) {
                        let x = choose|x: int| 0 <= x < e && (#[trigger] effects[x]).variable == k;
                        assert(effects[x].variable == k);
                    }
                    if effect_assigns(effects, k, (e + 1) as nat) && k != variable {
                        let x = choose|x: int| 0 <= x < e + 1 && (#[trigger] effects[x]).variable == k;
                        assert(effects[x].variable == k && x < e);
                    }
                }
            }
            e = e + 1;
        }
        proof {
            assert forall|k: int| 0 <= k < vs.len() implies #[trigger] table@[k] == (t.derived(k) || assigned(t, k, (o + 1) as nat)) by {
                assert(start[k] == (t.derived(k) || assigned(t, k, o as nat)));
                if assigned(t, k, o as nat) {
                    let x = choose|x: int|
                        0 <= x < o && effect_assigns((#[trigger] t.operators[x]).effects, k, t.operators[x].effects.len());
                    assert(effect_assigns(t.operators[x].effects, k, t.operators[x].effects.len()));
                }
                if assigned(t, k, (o + 1) as nat) && !effect_assigns(effects, k, effects.len()) {
                    let x = choose|x: int|
                        0 <= x < o + 1 && effect_assigns((#[trigger] t.operators[x]).effects, k, t.operators[x].effects.len());
                    assert(x < o);
                    assert(effect_assigns(t.operators[x].effects, k, t.operators[x].effects.len()));
                }
            }
        }
        o = o + 1;
    }
    table
}

/// The rules of the relaxation with their labels, prices and efforts.
struct RuleTable {
    rules: Vec<Rule>,
    labels: Vec<Option<Achiever>>,
    prices: Vec<u128>,
    efforts: Vec<u128>,
}

impl RuleTable {
    spec fn holds(&self, t: TaskView, cost: ActionCost, all: Seq<FactRule>) -> bool {
        &&& rule_views(self.rules@) == all.map_values(|r: FactRule| numbered_rule(t.variables, r))
        &&& self.labels@ == all.map_values(|r: FactRule| r.label)
        &&& self.prices@ == all.map_values(|r: FactRule| price(t, cost, r.label))
        &&& self.efforts@ == all.map_values(|r: FactRule| effort(r.label))
        &&& rules_in(rule_views(self.rules@), count_facts(t.variables))
    }

    fn push(
        &mut self,
        task: &Task,
        offsets: &Vec<usize>,
        action_cost: ActionCost,
        label: Option<Achiever>,
        head: Fact,
        body: &Vec<Fact>,
        Ghost(all): Ghost<Seq<FactRule>>,
    )
        requires
            task.wf(),
            numbers_facts(offsets@, task@.variables),
            old(self).holds(task@, action_cost, all),
            label matches Some(a) ==> a.operator < task@.operators.len(),
            fact_in(task@.variables, head),
            facts_in(task@.variables, body@),
        ensures
            final(self).holds(task@, action_cost, all.push(FactRule { label, head, body: body@ })),
    {
        let ghost t = task@;
        let ghost vs = t.variables;
        let ghost r = FactRule { label, head, body: body@ };
        let ghost after = all.push(r);
        proof {
            lemma_number(vs, head);
            lemma_numbers_below(vs, body@);
        }
        let rule = Rule { head: numbered(offsets, head, Ghost(vs)), body: numbered_all(offsets, body, Ghost(vs)) };
        let ghost rv = rule@;
        assert(rv =~= numbered_rule(vs, r));
        let (cost, work): (u128, u128) = match label {
            Some(a) => {
                assert(t.operators[a.operator as int] == task.operators@[a.operator as int]@);
                (action_cost.resolve(task.operators[a.operator].cost) as u128, 1)
            },
            None => (0, 0),
        };
        let ghost before = rule_views(self.rules@);
        self.rules.push(rule);
        self.labels.push(label);
        self.prices.push(cost);
        self.efforts.push(work);
        proof {
            assert(rule_views(self.rules@) =~= before.push(rv));
            assert(rule_views(self.rules@) =~= after.map_values(|r: FactRule| numbered_rule(vs, r)));
            assert(self.labels@ =~= after.map_values(|r: FactRule| r.label));
            assert(self.prices@ =~= after.map_values(|r: FactRule| price(t, action_cost, r.label)));
            assert(self.efforts@ =~= after.map_values(|r: FactRule| effort(r.label)));
            assert forall|k: int| 0 <= k < rule_views(self.rules@).len() implies rule_in(
                #[trigger] rule_views(self.rules@)[k],
                count_facts(vs),
            ) by {
                if k < before.len() {
                    assert(rule_in(before[k], count_facts(vs)));
                }
            }
        }
    }
}

proof fn lemma_with_new_in(variables: Seq<VariableView>, facts: Seq<Fact>, more: Seq<Fact>, n: nat)
    requires
        facts_in(variables, facts),
        facts_in(variables, more),
        n <= more.len(),
    ensures
        facts_in(variables, with_new(facts, more, n)),
    decreases n,
{
    if n > 0 {
        lemma_with_new_in(variables, facts, more, (n - 1) as nat);
        assert(fact_in(variables, more[n - 1]));
    }
}

/// The facts, then the further ones that are not among them.
fn union_of(facts: &Vec<Fact>, more: &Vec<Fact>) -> (res: Vec<Fact>)
    ensures
        res@ == with_new(facts@, more@, more@.len()),
{
    let mut res = copy_vec(facts);
    let mut i: usize = 0;
    while i < more.len()
        invariant
            i <= more@.len(),
            res@ == with_new(facts@, more@, i as nat),
        decreases more@.len() - i,
    {
        let fact = more[i];
        let mut found = false;
        let mut k: usize = 0;
        while k < res.len() && !found
            invariant
                k <= res@.len(),
                found ==> res@.contains(fact),
                !found ==> forall|j: int| 0 <= j < k ==> #[trigger] res@[j] != fact,
            decreases res@.len() - k, !found as int,
        {
            if res[k] == fact {
                assert(res@.contains(fact));
                found = true;
            } else {
                k = k + 1;
            }
        }
        if !found {
            res.push(fact);
        }
        i = i + 1;
    }
    res
}

fn build_rules(
    task: &Task,
    offsets: &Vec<usize>,
    preconditions: &Vec<Vec<Fact>>,
    supports: &Vec<Option<Vec<Vec<Fact>>>>,
    action_cost: ActionCost,
) -> (table: RuleTable)
    requires
        task.wf(),
        numbers_facts(offsets@, task@.variables),
        preconditions_table(task@, preconditions@),
        supports_table(task@, supports@),
    ensures
        table.holds(task@, action_cost, fact_rules(task@)),
{
    let ghost t = task@;
    let ghost vs = t.variables;
    let mut table = RuleTable { rules: Vec::new(), labels: Vec::new(), prices: Vec::new(), efforts: Vec::new() };
    let mut o: usize = 0;
    proof {
        let none = operator_rules(t, 0);
        assert(rule_views(table.rules@) =~= none.map_values(|r: FactRule| numbered_rule(vs, r)));
        assert(table.labels@ =~= none.map_values(|r: FactRule| r.label));
        assert(table.prices@ =~= none.map_values(|r: FactRule| price(t, action_cost, r.label)));
        assert(table.efforts@ =~= none.map_values(|r: FactRule| effort(r.label)));
    }
    while o < task.operators.len()
        invariant
            t == task@,
            vs == t.variables,
            task.wf(),
            numbers_facts(offsets@, vs),
            preconditions_table(t, preconditions@),
            o <= t.operators.len(),
            table.holds(t, action_cost, operator_rules(t, o as nat)),
        decreases t.operators.len() - o,
    {
        let operator = &task.operators[o];
        let ghost ov = t.operators[o as int];
        assert(ov == operator@);
        assert(operator_in(vs, ov));
        let ghost before = operator_rules(t, o as nat);
        let mut e: usize = 0;
        assert(before + effect_rules(t, o as nat, 0) =~= before);
        assert(preconditions@[o as int]@ == preconditions_of(ov));
        while e < operator.effects.len()
            invariant
                t == task@,
                vs == t.variables,
                task.wf(),
                numbers_facts(offsets@, vs),
                o < t.operators.len(),
                ov == t.operators[o as int],
                ov == operator@,
                operator_in(vs, ov),
                o < preconditions@.len(),
                preconditions@[o as int]@ == preconditions_of(ov),
                facts_in(vs, preconditions@[o as int]@),
                e <= ov.effects.len(),
                table.holds(t, action_cost, before + effect_rules(t, o as nat, e as nat)),
            decreases ov.effects.len() - e,
        {
            let effect = &operator.effects[e];
            assert(ov.effects[e as int] == effect@);
            assert(effect_in(vs, ov.effects[e as int]));
            let body = union_of(&preconditions[o], &effect.conditions);
            proof {
                lemma_with_new_in(vs, preconditions_of(ov), effect.conditions@, effect.conditions@.len());
            }
            let ghost all = before + effect_rules(t, o as nat, e as nat);
            table.push(
                task,
                offsets,
                action_cost,
                Some(Achiever { operator: o, effect: e }),
                effect.assignment(),
                &body,
                Ghost(all),
            );
            proof {
                let r = FactRule { label: Some(Achiever { operator: o, effect: e }), head: assignments(ov.effects)[e as int], body: body@ };
                assert(before + effect_rules(t, o as nat, (e + 1) as nat) =~= all.push(r));
            }
            e = e + 1;
        }
        o = o + 1;
    }
    let ghost ops = operator_rules(t, t.operators.len());
    let mut v: usize = 0;
    assert(ops + derived_rules(t, 0) =~= ops);
    while v < task.variables.len()
        invariant
            t == task@,
            vs == t.variables,
            task.wf(),
            numbers_facts(offsets@, vs),
            supports_table(t, supports@),
            v <= vs.len(),
            table.holds(t, action_cost, ops + derived_rules(t, v as nat)),
        decreases vs.len() - v,
    {
        if task.is_derived_variable(v) {
            assert(vs[v as int] == task.variables@[v as int]@);
            let size = task.variables[v].values.len();
            let ghost before = ops + derived_rules(t, v as nat);
            let mut w: usize = 0;
            assert(before + value_rules(t, v as nat, 0) =~= before);
            while w < size
                invariant
                    t == task@,
                    vs == t.variables,
                    task.wf(),
                    numbers_facts(offsets@, vs),
                    supports_table(t, supports@),
                    v < vs.len(),
                    t.derived(v as int),
                    size == vs[v as int].values.len(),
                    w <= size,
                    table.holds(t, action_cost, before + value_rules(t, v as nat, w as nat)),
                decreases size - w,
            {
                let fact = Fact::new(v, w);
                assert(fact_in(vs, fact));
                proof {
                    lemma_number(vs, fact);
                    supports_are_base_facts(task, fact);
                }
                let at = numbered(offsets, fact, Ghost(vs));
                assert(supports_entry(t, fact, supports@[at as int]));
                let ghost mid = before + value_rules(t, v as nat, w as nat);
                if let Some(clauses_of) = &supports[at] {
                    let ghost sv = clauses(clauses_of@);
                    let ghost more = support_rules(fact, sv);
                    let mut k: usize = 0;
                    assert(mid + more.take(0) =~= mid);
                    while k < clauses_of.len()
                        invariant
                            t == task@,
                            vs == t.variables,
                            task.wf(),
                            numbers_facts(offsets@, vs),
                            fact_in(vs, fact),
                            sv == clauses(clauses_of@),
                            base_clauses(t, sv),
                            more == support_rules(fact, sv),
                            k <= clauses_of@.len(),
                            table.holds(t, action_cost, mid + more.take(k as int)),
                        decreases clauses_of@.len() - k,
                    {
                        let support = &clauses_of[k];
                        assert(sv[k as int] == support@);
                        assert(crate::supports::base_clause(t, sv[k as int]));
                        assert(facts_in(vs, support@)) by {
                            assert forall|j: int| 0 <= j < support@.len() implies fact_in(vs, #[trigger] support@[j]) by {
                                assert(fact_in(vs, sv[k as int][j]));
                            }
                        }
                        table.push(task, offsets, action_cost, None, fact, support, Ghost(mid + more.take(k as int)));
                        proof {
                            let r = FactRule { label: None, head: fact, body: support@ };
                            assert(more[k as int] == r);
                            assert(mid + more.take(k + 1) =~= (mid + more.take(k as int)).push(r));
                        }
                        k = k + 1;
                    }
                    assert(more.take(k as int) =~= more);
                    assert(mid + more =~= before + value_rules(t, v as nat, (w + 1) as nat));
                }
                w = w + 1;
            }
            assert(before + value_rules(t, v as nat, size as nat) =~= ops + derived_rules(t, (v + 1) as nat));
        }
        v = v + 1;
    }
    table
}

/// The estimates before any rule.
fn build_start(task: &Task, offsets: &Vec<usize>, top: u128) -> (values: Vec<u128>)
    requires
        task.wf(),
        numbers_facts(offsets@, task@.variables),
    ensures
        values@ == start_values(task@, top),
{
    let ghost t = task@;
    let ghost vs = t.variables;
    let n = task.num_facts();
    let mut values: Vec<u128> = Vec::new();
    let mut i: usize = 0;
    while i < n
        invariant
            i <= n,
            values@.len() == i,
            forall|k: int| 0 <= k < i ==> #[trigger] values@[k] == top,
        decreases n - i,
    {
        values.push(top);
        i = i + 1;
    }
    let ghost all = Seq::new(count_facts(vs), |i: int| top);
    let mut v: usize = 0;
    assert(values@ =~= zeroed(all, numbers(vs, initial_facts(t, 0))));
    while v < task.variables.len()
        invariant
            t == task@,
            vs == t.variables,
            task.wf(),
            numbers_facts(offsets@, vs),
            v <= vs.len(),
            all.len() == count_facts(vs),
            values@ == zeroed(all, numbers(vs, initial_facts(t, v as nat))),
        decreases vs.len() - v,
    {
        if !task.is_derived_variable(v) {
            let fact = Fact::new(v, task.initial[v]);
            assert(t.initial[v as int] < vs[v as int].values.len());
            proof {
                lemma_number(vs, fact);
            }
            let at = numbered(offsets, fact, Ghost(vs));
            let ghost before = values@;
            let ghost old_free = numbers(vs, initial_facts(t, v as nat));
            values.set(at, 0);
            proof {
                let free = numbers(vs, initial_facts(t, (v + 1) as nat));
                assert(free =~= old_free.push(at));
                lemma_zeroed_push(all, old_free, at);
            }
        }
        v = v + 1;
    }
    values
}

proof fn lemma_zeroed_push(values: Seq<u128>, free: Seq<usize>, at: usize)
    requires
        at < values.len(),
    ensures
        zeroed(values, free.push(at)) == zeroed(values, free).update(at as int, 0),
{
    let more = free.push(at);
    let a = zeroed(values, more);
    let b = zeroed(values, free).update(at as int, 0);
    assert forall|i: int| 0 <= i < values.len() implies #[trigger] a[i] == b[i] by {
        assert(more[free.len() as int] == at);
        if exists|k: int| 0 <= k < free.len() && #[trigger] free[k] == i {
            let k = choose|k: int| 0 <= k < free.len() && #[trigger] free[k] == i;
            assert(more[k] == i);
        }
        if exists|k: int| 0 <= k < more.len() && #[trigger] more[k] == i {
            let k = choose|k: int| 0 <= k < more.len() && #[trigger] more[k] == i;
            if k < free.len() {
                assert(free[k] == i);
            }
        }
    }
    assert(a =~= b);
}

/// The additive cost estimates of the facts for the plan.
pub open spec fn cost_values(t: TaskView, cost: ActionCost, p: PlanView, reuse: bool) -> Seq<u128> {
    choose|values: Seq<u128>| is_cost_estimate(t, cost, p, reuse, values)
}

/// The additive work estimates of the facts for the plan.
pub open spec fn work_values(t: TaskView, p: PlanView, reuse: bool) -> Seq<u128> {
    choose|values: Seq<u128>| is_work_estimate(t, p, reuse, values)
}

pub open spec fn capped(n: nat, top: u128) -> u128 {
    if n > top {
        top
    } else {
        n as u128
    }
}

/// The sum of the estimates of the first `n` open conditions.
pub open spec fn open_sum(t: TaskView, values: Seq<u128>, opens: Seq<OpenCondition>, n: nat) -> nat
    decreases n,
{
    if n == 0 {
        0
    } else {
        open_sum(t, values, opens, (n - 1) as nat) + values[number(t.variables, opens[n - 1].condition)] as nat
    }
}

/// The cost estimate of the open conditions.
pub open spec fn open_cost(t: TaskView, cost: ActionCost, p: PlanView, reuse: bool) -> u128 {
    capped(open_sum(t, cost_values(t, cost, p, reuse), p.opens, p.opens.len()), UNREACHABLE)
}

/// The work estimate of the open conditions.
pub open spec fn open_work(t: TaskView, p: PlanView, reuse: bool) -> u128 {
    capped(open_sum(t, work_values(t, p, reuse), p.opens, p.opens.len()), ENDLESS)
}

/// What the open conditions of a plan are estimated at.
#[derive(Debug, Clone, Copy, PartialEq, Eq, Structural)]
pub struct AddEstimate {
    /// [`UNREACHABLE`] when a condition is out of reach.
    pub cost: u128,
    /// [`ENDLESS`] when a condition is out of reach.
    pub work: u128,
}

/// The steps of the plan name operators and its open conditions name facts.
pub open spec fn plan_in(t: TaskView, p: PlanView) -> bool {
    &&& forall|i: int| 0 <= i < p.steps.len() ==> (#[trigger] p.steps[i]).operator < t.operators.len()
    &&& forall|i: int| 0 <= i < p.opens.len() ==> fact_in(t.variables, (#[trigger] p.opens[i]).condition)
}

proof fn lemma_committed_in(t: TaskView, p: PlanView, n: nat)
    requires
        t.wf(),
        plan_in(t, p),
        n <= p.steps.len(),
    ensures
        facts_in(t.variables, committed_facts(t, p, n)),
    decreases n,
{
    if n > 0 {
        lemma_committed_in(t, p, (n - 1) as nat);
        let o = t.operators[p.steps[n - 1].operator as int];
        assert(operator_in(t.variables, o));
        let all = committed_facts(t, p, n);
        let before = committed_facts(t, p, (n - 1) as nat);
        assert forall|i: int| 0 <= i < all.len() implies fact_in(t.variables, #[trigger] all[i]) by {
            if i < before.len() {
                assert(fact_in(t.variables, before[i]));
            } else {
                assert(effect_in(t.variables, o.effects[i - before.len()]));
            }
        }
    }
}

/// The tables of ground search over a task.
pub struct Planner<'a> {
    task: &'a Task,
    action_cost: ActionCost,
    offsets: Vec<usize>,
    achievers: Vec<Vec<Achiever>>,
    variable_has_effect: Vec<bool>,
    operator_preconditions: Vec<Vec<Fact>>,
    derived_supports: Vec<Option<Vec<Vec<Fact>>>>,
    rules: RuleTable,
    base_cost: Rc<Vec<u128>>,
    base_work: Rc<Vec<u128>>,
    best: Vec<Option<usize>>,
    lmcut: Result<FdrLmCut, BuildError>,
}

impl<'a> Planner<'a> {
    /// The task.
    pub closed spec fn t(&self) -> TaskView {
        self.task@
    }

    /// The cost model.
    pub closed spec fn model(&self) -> ActionCost {
        self.action_cost
    }

    /// Native LM-cut for the task, or why it has none.
    pub closed spec fn lm(&self) -> Result<FdrLmCut, BuildError> {
        self.lmcut
    }

    /// The tables are those of the task.
    pub closed spec fn wf(&self) -> bool {
        let t = self.task@;
        &&& t.wf()
        &&& sizes_fit(t)
        &&& numbers_facts(self.offsets@, t.variables)
        &&& achievers_table(t, self.achievers@)
        &&& preconditions_table(t, self.operator_preconditions@)
        &&& supports_table(t, self.derived_supports@)
        &&& self.variable_has_effect@.len() == t.variables.len()
        &&& forall|v: int| 0 <= v < t.variables.len() ==> #[trigger] self.variable_has_effect@[v] == has_effect(t, v)
        &&& self.rules.holds(t, self.action_cost, fact_rules(t))
        &&& is_estimate(relaxed_rules(t), prices_of(t, self.action_cost), start_values(t, UNREACHABLE), self.base_cost@)
        &&& supported_by(
            relaxed_rules(t),
            prices_of(t, self.action_cost),
            start_values(t, UNREACHABLE),
            self.base_cost@,
            self.best@,
        )
        &&& is_swept(
            relaxed_rules(t),
            prices_of(t, self.action_cost),
            start_values(t, UNREACHABLE),
            (Sweep { values: self.base_cost@, best: self.best@ }),
        )
        &&& is_estimate(relaxed_rules(t), efforts_of(t), start_values(t, ENDLESS), self.base_work@)
        &&& self.lmcut matches Ok(lm) ==> lm.wf() && lm.task() == t && lm.relaxes(t, self.action_cost)
    }

    /// The tables with declared action costs.
    pub fn new(task: &'a Task) -> (res: Self)
        requires
            task.wf(),
            count_facts(task@.variables) < usize::MAX,
        ensures
            res.wf(),
            res.t() == task@,
            res.model() == ActionCost::Task,
    {
        Self::with_action_cost(task, ActionCost::Task)
    }

    /// The tables under the cost model.
    pub fn with_action_cost(task: &'a Task, action_cost: ActionCost) -> (res: Self)
        requires
            task.wf(),
            count_facts(task@.variables) < usize::MAX,
        ensures
            res.wf(),
            res.t() == task@,
            res.model() == action_cost,
            res.lm() is Ok <==> forall|i: int|
                0 <= i < task@.operators.len() ==> operator_fits(#[trigger] task@.operators[i], action_cost),
    {
        let ghost t = task@;
        proof {
            lemma_sizes_fit(task);
        }
        let offsets = fact_offsets(task);
        let derived_supports = build_supports(task);
        let operator_preconditions = build_preconditions(task);
        let rules = build_rules(task, &offsets, &operator_preconditions, &derived_supports, action_cost);
        let mut base_cost = build_start(task, &offsets, UNREACHABLE);
        let best = saturate(&rules.rules, &rules.prices, &mut base_cost);
        let mut base_work = build_start(task, &offsets, ENDLESS);
        let _ = saturate(&rules.rules, &rules.efforts, &mut base_work);
        let lmcut = FdrLmCut::new(task, action_cost);
        let achievers = build_achievers(task, &offsets);
        let variable_has_effect = build_has_effect(task);
        Planner {
            task,
            action_cost,
            offsets,
            achievers,
            variable_has_effect,
            operator_preconditions,
            derived_supports,
            rules,
            base_cost: Rc::new(base_cost),
            base_work: Rc::new(base_work),
            best,
            lmcut,
        }
    }

    pub fn task(&self) -> (res: &'a Task)
        ensures
            res@ == self.t(),
    {
        self.task
    }

    pub fn action_cost(&self) -> (res: ActionCost)
        ensures
            res == self.model(),
    {
        self.action_cost
    }

    pub proof fn lemma_wf(&self)
        requires
            self.wf(),
        ensures
            self.t().wf(),
            sizes_fit(self.t()),
            count_facts(self.t().variables) <= usize::MAX,
    {
    }

    /// The number of the fact.
    pub fn index(&self, fact: Fact) -> (res: usize)
        requires
            self.wf(),
            fact_in(self.t().variables, fact),
        ensures
            res == number(self.t().variables, fact),
            res < count_facts(self.t().variables),
    {
        proof {
            lemma_number(self.t().variables, fact);
        }
        numbered(&self.offsets, fact, Ghost(self.task@.variables))
    }

    /// The effects that assign the fact.
    pub fn achievers(&self, fact: Fact) -> (res: &Vec<Achiever>)
        requires
            self.wf(),
            fact_in(self.t().variables, fact),
        ensures
            res@ == achievers_of(self.t(), fact),
    {
        let at = self.index(fact);
        &self.achievers[at]
    }

    /// The supports of a derived fact.
    pub fn supports(&self, fact: Fact) -> (res: Option<&Vec<Vec<Fact>>>)
        requires
            self.wf(),
            fact_in(self.t().variables, fact),
        ensures
            match res {
                Some(s) => self.t().derived(fact.variable as int) && clauses(s@) == supports_of(self.t(), fact),
                None => !self.t().derived(fact.variable as int),
            },
    {
        let at = self.index(fact);
        assert(supports_entry(self.t(), fact, self.derived_supports@[at as int]));
        match &self.derived_supports[at] {
            Some(s) => Some(s),
            None => None,
        }
    }

    /// The complete applicability condition of the operator.
    pub fn preconditions(&self, operator: usize) -> (res: &Vec<Fact>)
        requires
            self.wf(),
            operator < self.t().operators.len(),
        ensures
            res@ == preconditions_of(self.t().operators[operator as int]),
            facts_in(self.t().variables, res@),
    {
        &self.operator_preconditions[operator]
    }

    /// Whether the variable is derived or some effect assigns it.
    pub fn changes(&self, variable: usize) -> (res: bool)
        requires
            self.wf(),
            variable < self.t().variables.len(),
        ensures
            res == has_effect(self.t(), variable as int),
    {
        self.variable_has_effect[variable]
    }

    /// Native LM-cut for the task, or why it has none.
    pub fn lmcut(&self) -> (res: &Result<FdrLmCut, BuildError>)
        ensures
            *res == self.lm(),
    {
        &self.lmcut
    }

    /// The facts that the steps of the plan assign, when steps are reused.
    pub fn reusable(&self, plan: &PartialPlan, reuse: bool) -> (res: Vec<Fact>)
        requires
            self.wf(),
            plan_in(self.t(), plan@),
        ensures
            res@ == reused(self.t(), plan@, reuse),
            facts_in(self.t().variables, res@),
    {
        let ghost t = self.t();
        let mut res: Vec<Fact> = Vec::new();
        if reuse {
            let mut i: usize = 0;
            while i < plan.steps.len()
                invariant
                    t == self.t(),
                    self.wf(),
                    plan_in(t, plan@),
                    i <= plan@.steps.len(),
                    res@ == committed_facts(t, plan@, i as nat),
                decreases plan@.steps.len() - i,
            {
                let step = plan.steps[i];
                assert(plan@.steps[i as int].operator < t.operators.len());
                let operator = &self.task.operators[step.operator];
                let ghost ov = t.operators[step.operator as int];
                assert(ov == operator@);
                let ghost before = res@;
                let ghost more = assignments(ov.effects);
                let mut e: usize = 0;
                assert(before + more.take(0) =~= before);
                while e < operator.effects.len()
                    invariant
                        ov == operator@,
                        more == assignments(ov.effects),
                        e <= ov.effects.len(),
                        res@ == before + more.take(e as int),
                    decreases ov.effects.len() - e,
                {
                    assert(ov.effects[e as int] == operator.effects@[e as int]@);
                    res.push(operator.effects[e].assignment());
                    assert(before + more.take(e + 1) =~= (before + more.take(e as int)).push(more[e as int]));
                    e = e + 1;
                }
                assert(more.take(e as int) =~= more);
                i = i + 1;
            }
            proof {
                lemma_committed_in(t, plan@, plan@.steps.len());
            }
        }
        res
    }

    /// Lowers the base estimates to zero at the free facts and saturates again
    /// where that changed anything.
    fn reduced(
        &self,
        base: &Rc<Vec<u128>>,
        prices: &Vec<u128>,
        free: &Vec<Fact>,
        Ghost(start): Ghost<Seq<u128>>,
    ) -> (res: Rc<Vec<u128>>)
        requires
            self.wf(),
            facts_in(self.t().variables, free@),
            prices@.len() == self.rules.rules@.len(),
            is_estimate(relaxed_rules(self.t()), prices@, start, base@),
            start.len() == count_facts(self.t().variables),
        ensures
            is_estimate(relaxed_rules(self.t()), prices@, zeroed(start, numbers(self.t().variables, free@)), res@),
    {
        let ghost t = self.t();
        let ghost vs = t.variables;
        let ghost rs = relaxed_rules(t);
        let mut values = copy_vec(&**base);
        let mut changed = false;
        let mut i: usize = 0;
        let ghost numbers_of = numbers(vs, free@);
        assert(values@ =~= zeroed(base@, numbers_of.take(0)));
        while i < free.len()
            invariant
                t == self.t(),
                vs == t.variables,
                self.wf(),
                facts_in(vs, free@),
                numbers_of == numbers(vs, free@),
                i <= free@.len(),
                values@.len() == count_facts(vs),
                base@.len() == count_facts(vs),
                values@ == zeroed(base@, numbers_of.take(i as int)),
                !changed ==> values@ == base@,
            decreases free@.len() - i,
        {
            assert(fact_in(vs, free@[i as int]));
            let at = self.index(free[i]);
            if values[at] != 0 {
                changed = true;
            }
            let ghost before = values@;
            values.set(at, 0);
            proof {
                assert(numbers_of[i as int] == at);
                assert(numbers_of.take(i + 1) =~= numbers_of.take(i as int).push(at));
                lemma_zeroed_push(base@, numbers_of.take(i as int), at);
                if !changed {
                    assert(values@ =~= before);
                }
            }
            i = i + 1;
        }
        assert(numbers_of.take(i as int) =~= numbers_of);
        let ghost from = values@;
        if changed {
            let _ = saturate(&self.rules.rules, prices, &mut values);
        }
        proof {
            assert(is_estimate(rs, prices@, from, values@));
            lemma_zeroed(rs, prices@, start, base@, numbers_of, values@);
        }
        Rc::new(values)
    }

    /// The additive estimates for the plan: costs, then work. Without reuse
    /// they do not depend on the plan.
    pub fn relaxed_values(&self, plan: &PartialPlan, reuse: bool) -> (res: (Rc<Vec<u128>>, Rc<Vec<u128>>))
        requires
            self.wf(),
            plan_in(self.t(), plan@),
        ensures
            res.0@ == cost_values(self.t(), self.model(), plan@, reuse),
            res.1@ == work_values(self.t(), plan@, reuse),
            res.0@.len() == count_facts(self.t().variables),
            res.1@.len() == count_facts(self.t().variables),
    {
        let ghost t = self.t();
        let ghost rs = relaxed_rules(t);
        let ghost vs = t.variables;
        let free = self.reusable(plan, reuse);
        let ghost numbers_of = numbers(vs, free@);
        let ghost c0 = start_values(t, UNREACHABLE);
        let ghost w0 = start_values(t, ENDLESS);
        proof {
            assert(rule_views(self.rules.rules@).len() == fact_rules(t).len());
            assert(self.rules.prices@.len() == fact_rules(t).len());
            assert(self.rules.efforts@.len() == fact_rules(t).len());
        }
        let (cost, work) = if reuse {
            (
                self.reduced(&self.base_cost, &self.rules.prices, &free, Ghost(c0)),
                self.reduced(&self.base_work, &self.rules.efforts, &free, Ghost(w0)),
            )
        } else {
            proof {
                assert(zeroed(c0, numbers_of) =~= c0);
                assert(zeroed(w0, numbers_of) =~= w0);
            }
            (Rc::clone(&self.base_cost), Rc::clone(&self.base_work))
        };
        proof {
            assert(is_cost_estimate(t, self.action_cost, plan@, reuse, cost@));
            estimates_agree(
                rs,
                prices_of(t, self.action_cost),
                zeroed(c0, numbers_of),
                cost@,
                cost_values(t, self.action_cost, plan@, reuse),
            );
            assert(is_work_estimate(t, plan@, reuse, work@));
            estimates_agree(rs, efforts_of(t), zeroed(w0, numbers_of), work@, work_values(t, plan@, reuse));
        }
        (cost, work)
    }

    /// The additive estimate of the open conditions.
    pub fn open_estimate(&self, plan: &PartialPlan, reuse: bool) -> (res: AddEstimate)
        requires
            self.wf(),
            plan_in(self.t(), plan@),
        ensures
            res.cost == open_cost(self.t(), self.model(), plan@, reuse),
            res.work == open_work(self.t(), plan@, reuse),
    {
        let ghost t = self.t();
        let (costs, works) = self.relaxed_values(plan, reuse);
        let mut cost: u128 = 0;
        let mut work: u128 = 0;
        let mut i: usize = 0;
        while i < plan.open_conditions.len()
            invariant
                t == self.t(),
                self.wf(),
                plan_in(t, plan@),
                i <= plan@.opens.len(),
                costs@.len() == count_facts(t.variables),
                works@.len() == count_facts(t.variables),
                cost == capped(open_sum(t, costs@, plan@.opens, i as nat), UNREACHABLE),
                work == capped(open_sum(t, works@, plan@.opens, i as nat), ENDLESS),
            decreases plan@.opens.len() - i,
        {
            assert(fact_in(t.variables, plan@.opens[i as int].condition));
            let at = self.index(plan.open_conditions[i].condition);
            cost = cost.saturating_add(costs[at]);
            let sum = work.saturating_add(works[at]);
            work = if sum > ENDLESS {
                ENDLESS
            } else {
                sum
            };
            i = i + 1;
        }
        AddEstimate { cost, work }
    }
}

// ---------------------------------------------------------------------------
// Relaxed plans
// ---------------------------------------------------------------------------

/// How a relaxed plan gets a fact.
pub enum Means {
    /// It is there already.
    Free,
    /// By an operator, or by the axioms, from the facts.
    By(Option<usize>, Seq<Fact>),
    /// It cannot.
    Nothing,
}

/// The sum of the estimates of the first `n` facts.
pub open spec fn fact_sum(t: TaskView, values: Seq<u128>, facts: Seq<Fact>, n: nat) -> nat
    decreases n,
{
    if n == 0 {
        0
    } else {
        fact_sum(t, values, facts, (n - 1) as nat) + values[number(t.variables, facts[n - 1])] as nat
    }
}

pub open spec fn clause_cost(t: TaskView, values: Seq<u128>, clause: Seq<Fact>) -> u128 {
    capped(fact_sum(t, values, clause, clause.len()), UNREACHABLE)
}

/// The first cheapest of the first `n` clauses.
pub open spec fn cheapest(t: TaskView, values: Seq<u128>, supports: Seq<Seq<Fact>>, n: nat) -> int
    decreases n,
{
    if n <= 1 {
        0
    } else {
        let best = cheapest(t, values, supports, (n - 1) as nat);
        if clause_cost(t, values, supports[n - 1]) < clause_cost(t, values, supports[best]) {
            n - 1
        } else {
            best
        }
    }
}

/// The fact is an open condition or among what an earlier fact needs.
pub open spec fn is_needed(goals: Seq<Fact>, means: spec_fn(Fact) -> Means, achieved: Seq<Fact>, i: int) -> bool {
    goals.contains(achieved[i]) || exists|j: int|
        0 <= j < i && (match means(#[trigger] achieved[j]) {
            Means::By(_, body) => body.contains(achieved[i]),
            _ => false,
        })
}

/// Every listed fact is needed.
pub open spec fn all_needed(goals: Seq<Fact>, means: spec_fn(Fact) -> Means, achieved: Seq<Fact>) -> bool {
    forall|i: int| 0 <= i < achieved.len() ==> #[trigger] is_needed(goals, means, achieved, i)
}

/// The operator gives some listed fact.
pub open spec fn is_chosen(means: spec_fn(Fact) -> Means, achieved: Seq<Fact>, op: usize) -> bool {
    exists|i: int|
        0 <= i < achieved.len() && (match means(#[trigger] achieved[i]) {
            Means::By(Some(o), _) => o == op,
            _ => false,
        })
}

/// The facts of a relaxed plan for the goals and its operators: it has the goals
/// and whatever a fact needs, it has nothing that is not needed, and its
/// operators are those that give its facts, each once.
pub open spec fn is_relaxed_plan(goals: Seq<Fact>, means: spec_fn(Fact) -> Means, achieved: Seq<Fact>, ops: Seq<usize>) -> bool {
    &&& forall|i: int| 0 <= i < goals.len() ==> achieved.contains(#[trigger] goals[i])
    &&& all_needed(goals, means, achieved)
    &&& forall|i: int|
        0 <= i < achieved.len() ==> match means(#[trigger] achieved[i]) {
            Means::Free => true,
            Means::By(op, body) => {
                &&& op matches Some(o) ==> ops.contains(o)
                &&& forall|k: int| 0 <= k < body.len() ==> achieved.contains(#[trigger] body[k])
            },
            Means::Nothing => false,
        }
    &&& ops.no_duplicates()
    &&& forall|k: int| 0 <= k < ops.len() ==> is_chosen(means, achieved, #[trigger] ops[k])
}

/// The cost of the operators.
pub open spec fn operators_cost(t: TaskView, cost: ActionCost, ops: Seq<usize>) -> nat
    decreases ops.len(),
{
    if ops.len() == 0 {
        0
    } else {
        operators_cost(t, cost, ops.drop_last()) + cost.cost_of(t.operators[ops.last() as int].cost) as nat
    }
}

proof fn lemma_operators_cost(t: TaskView, cost: ActionCost, ops: Seq<usize>)
    ensures
        operators_cost(t, cost, ops) <= ops.len() * usize::MAX,
    decreases ops.len(),
{
    if ops.len() > 0 {
        lemma_operators_cost(t, cost, ops.drop_last());
        assert((ops.len() - 1) * usize::MAX + usize::MAX == ops.len() * usize::MAX) by (nonlinear_arith);
    }
}

/// The conditions of the plan.
pub open spec fn open_facts(p: PlanView) -> Seq<Fact> {
    p.opens.map_values(|o: OpenCondition| o.condition)
}

/// The number of facts that are not marked.
spec fn unmarked(flags: Seq<bool>) -> nat
    decreases flags.len(),
{
    if flags.len() == 0 {
        0
    } else {
        unmarked(flags.drop_last()) + (if flags.last() {
            0nat
        } else {
            1nat
        })
    }
}

proof fn lemma_unmarked(flags: Seq<bool>, i: int)
    requires
        0 <= i < flags.len(),
        !flags[i],
    ensures
        unmarked(flags.update(i, true)) < unmarked(flags),
    decreases flags.len(),
{
    let after = flags.update(i, true);
    if i == flags.len() - 1 {
        assert(after.drop_last() =~= flags.drop_last());
    } else {
        lemma_unmarked(flags.drop_last(), i);
        assert(after.drop_last() =~= flags.drop_last().update(i, true));
    }
}

/// The effect that gives the fact its estimate: that of the last rule that lowered it in
/// sweeps over the rules.
pub open spec fn supporter_of(t: TaskView, cost: ActionCost, fact: Fact) -> Option<Achiever> {
    match swept(relaxed_rules(t), prices_of(t, cost), start_values(t, UNREACHABLE)).best[number(t.variables, fact)] {
        Some(r) => labels_of(t)[r as int],
        None => None,
    }
}

impl<'a> Planner<'a> {
    /// The effect that gives the fact its estimate.
    pub open spec fn supporter(&self, fact: Fact) -> Option<Achiever> {
        supporter_of(self.t(), self.model(), fact)
    }

    /// The supporters are those that are noted.
    proof fn lemma_swept(&self)
        requires
            self.wf(),
        ensures
            swept(relaxed_rules(self.t()), prices_of(self.t(), self.model()), start_values(self.t(), UNREACHABLE)) == (Sweep {
                values: self.base_cost@,
                best: self.best@,
            }),
    {
        sweeps_agree(
            relaxed_rules(self.t()),
            prices_of(self.t(), self.model()),
            start_values(self.t(), UNREACHABLE),
            (Sweep { values: self.base_cost@, best: self.best@ }),
        );
    }

    /// How a relaxed plan gets the fact when the facts in `free` are there.
    pub open spec fn means(&self, free: Seq<Fact>) -> spec_fn(Fact) -> Means {
        let t = self.t();
        let p = PlanView::initial(t);
        |f: Fact|
            if (!t.derived(f.variable as int) && t.initial[f.variable as int] == f.value) || free.contains(f) {
                Means::Free
            } else if t.derived(f.variable as int) {
                let supports = supports_of(t, f);
                if supports.len() == 0 {
                    Means::Nothing
                } else {
                    Means::By(None, supports[cheapest(t, cost_values(t, self.model(), p, false), supports, supports.len())])
                }
            } else {
                match self.supporter(f) {
                    Some(a) => Means::By(Some(a.operator), requirements(t.operators[a.operator as int], a.effect as int)),
                    None => Means::Nothing,
                }
            }
    }

    proof fn lemma_base(&self)
        requires
            self.wf(),
        ensures
            self.base_cost@ == cost_values(self.t(), self.model(), PlanView::initial(self.t()), false),
            self.base_cost@.len() == count_facts(self.t().variables),
    {
        let t = self.t();
        let p = PlanView::initial(t);
        let c0 = start_values(t, UNREACHABLE);
        let none = numbers(t.variables, reused(t, p, false));
        assert(zeroed(c0, none) =~= c0);
        assert(is_cost_estimate(t, self.model(), p, false, self.base_cost@));
        estimates_agree(relaxed_rules(t), prices_of(t, self.model()), c0, self.base_cost@, cost_values(t, self.model(), p, false));
    }

    /// A label names an effect that assigns the head of its rule, and the rule's
    /// body is what that effect needs.
    proof fn lemma_label(&self, r: int)
        requires
            self.wf(),
            0 <= r < fact_rules(self.t()).len(),
        ensures
            fact_rules(self.t())[r].label matches Some(a) ==> {
                let t = self.t();
                &&& achieves(t, fact_rules(t)[r].head, a)
                &&& fact_rules(t)[r].body == requirements(t.operators[a.operator as int], a.effect as int)
            },
            fact_rules(self.t())[r].label is None ==> self.t().derived(fact_rules(self.t())[r].head.variable as int) && fact_in(
                self.t().variables,
                fact_rules(self.t())[r].head,
            ),
    {
        let t = self.t();
        assert(self.offsets.len() == self.offsets@.len());
        let ops = operator_rules(t, t.operators.len());
        lemma_operator_rules(t, t.operators.len());
        lemma_derived_rules(t, t.variables.len());
        if r < ops.len() {
            assert(fact_rules(t)[r] == ops[r]);
        } else {
            assert(fact_rules(t)[r] == derived_rules(t, t.variables.len())[r - ops.len()]);
        }
    }

    /// A fact within reach that is neither initial nor derived has a supporter:
    /// an effect that assigns it, and that costs what the fact is estimated at.
    pub proof fn supporters_are_exact(&self, fact: Fact)
        requires
            self.wf(),
            fact_in(self.t().variables, fact),
            !self.t().derived(fact.variable as int),
            self.t().initial[fact.variable as int] != fact.value,
        ensures
            ({
                let t = self.t();
                let values = cost_values(t, self.model(), PlanView::initial(t), false);
                let v = values[number(t.variables, fact)];
                match self.supporter(fact) {
                    Some(a) => achieves(t, fact, a) && v == price(t, self.model(), Some(a)) + fact_sum(
                        t,
                        values,
                        requirements(t.operators[a.operator as int], a.effect as int),
                        requirements(t.operators[a.operator as int], a.effect as int).len(),
                    ),
                    None => v == UNREACHABLE,
                }
            }),
    {
        let t = self.t();
        let vs = t.variables;
        let n = number(vs, fact);
        let rs = relaxed_rules(t);
        let prices = prices_of(t, self.model());
        let c0 = start_values(t, UNREACHABLE);
        self.lemma_base();
        self.lemma_swept();
        lemma_number(vs, fact);
        let values = self.base_cost@;
        match self.best@[n] {
            Some(r) => {
                let fr = fact_rules(t)[r as int];
                assert(rs[r as int] == numbered_rule(vs, fr));
                assert(rs[r as int].head == n);
                self.lemma_label(r as int);
                if let Some(a) = fr.label {
                    assert(self.operator_preconditions@[a.operator as int]@ == preconditions_of(t.operators[a.operator as int]));
                    lemma_rule_heads(t, r as int);
                }
                lemma_number(vs, fr.head);
                numbers_differ(vs, fr.head, fact);
                lemma_best_is_exact(rs, prices, c0, values, self.best@, n);
                let a = fr.label->0;
                lemma_fact_sum(t, values, fr.body, fr.body.len());
            },
            None => {
                assert(values[n] == c0[n]);
                assert(self.offsets.len() == self.offsets@.len());
                lemma_initial_numbers(t, t.variables.len(), fact);
            },
        }
    }
}

/// The facts of a list with a stamp, in its order.
pub open spec fn with_stamp(list: Seq<Fact>, at: spec_fn(Fact) -> nat, stamp: nat) -> Seq<Fact>
    decreases list.len(),
{
    if list.len() == 0 {
        Seq::empty()
    } else {
        let rest = with_stamp(list.drop_last(), at, stamp);
        if at(list.last()) == stamp {
            rest.push(list.last())
        } else {
            rest
        }
    }
}

proof fn lemma_with_stamp(list: Seq<Fact>, at: spec_fn(Fact) -> nat, stamp: nat, f: Fact)
    ensures
        with_stamp(list, at, stamp).contains(f) <==> list.contains(f) && at(f) == stamp,
    decreases list.len(),
{
    let all = with_stamp(list, at, stamp);
    if list.len() > 0 {
        let front = list.drop_last();
        let rest = with_stamp(front, at, stamp);
        lemma_with_stamp(front, at, stamp, f);
        if list.contains(f) && f != list.last() {
            let i = choose|i: int| 0 <= i < list.len() && list[i] == f;
            assert(front[i] == f);
        }
        if front.contains(f) {
            let i = choose|i: int| 0 <= i < front.len() && front[i] == f;
            assert(list[i] == f);
        }
        if rest.contains(f) {
            let i = choose|i: int| 0 <= i < rest.len() && rest[i] == f;
            assert(all[i] == f);
        }
        if at(list.last()) == stamp {
            assert(all[rest.len() as int] == list.last());
            if all.contains(f) && f != list.last() {
                let i = choose|i: int| 0 <= i < all.len() && all[i] == f;
                assert(rest[i] == f);
            }
        }
    }
}

/// The facts of a list with stamps below a bound, in the order of the stamps.
pub open spec fn by_stamp(list: Seq<Fact>, at: spec_fn(Fact) -> nat, bound: nat) -> Seq<Fact>
    decreases bound,
{
    if bound == 0 {
        Seq::empty()
    } else {
        by_stamp(list, at, (bound - 1) as nat) + with_stamp(list, at, (bound - 1) as nat)
    }
}

proof fn lemma_by_stamp(list: Seq<Fact>, at: spec_fn(Fact) -> nat, bound: nat)
    ensures
        forall|f: Fact| #[trigger] by_stamp(list, at, bound).contains(f) <==> list.contains(f) && at(f) < bound,
        forall|i: int, g: Fact|
            #![trigger by_stamp(list, at, bound)[i], at(g)]
            0 <= i < by_stamp(list, at, bound).len() && list.contains(g) && at(g) < at(by_stamp(list, at, bound)[i]) ==> by_stamp(
                list,
                at,
                bound,
            ).take(i).contains(g),
    decreases bound,
{
    let all = by_stamp(list, at, bound);
    if bound > 0 {
        let k = (bound - 1) as nat;
        lemma_by_stamp(list, at, k);
        let front = by_stamp(list, at, k);
        let back = with_stamp(list, at, k);
        assert forall|f: Fact| back.contains(f) <==> list.contains(f) && at(f) == k by {
            lemma_with_stamp(list, at, k, f);
        }
        assert forall|f: Fact| #[trigger] all.contains(f) <==> list.contains(f) && at(f) < bound by {
            if all.contains(f) {
                let i = choose|i: int| 0 <= i < all.len() && all[i] == f;
                if i < front.len() {
                    assert(front[i] == f);
                    assert(front.contains(f));
                } else {
                    assert(back[i - front.len()] == f);
                    assert(back.contains(f));
                }
            }
            if list.contains(f) && at(f) < bound {
                if at(f) < k {
                    assert(front.contains(f));
                    let i = choose|i: int| 0 <= i < front.len() && front[i] == f;
                    assert(all[i] == f);
                } else {
                    assert(back.contains(f));
                    let i = choose|i: int| 0 <= i < back.len() && back[i] == f;
                    assert(all[front.len() + i] == f);
                }
            }
        }
        assert forall|i: int, g: Fact|
            #![trigger all[i], at(g)]
            0 <= i < all.len() && list.contains(g) && at(g) < at(all[i]) implies all.take(i).contains(g) by {
            if i < front.len() {
                assert(all[i] == front[i]);
                assert(front.take(i).contains(g));
                assert(all.take(i) =~= front.take(i));
            } else {
                assert(all[i] == back[i - front.len()]);
                assert(back.contains(all[i]));
                assert(front.contains(g));
                let j = choose|j: int| 0 <= j < front.len() && front[j] == g;
                assert(all.take(i)[j] == g);
            }
        }
    }
}

/// Whether facts can be had one after the other: each is there already, or its means need
/// no fact but those in front of it.
pub open spec fn is_executable(means: spec_fn(Fact) -> Means, order: Seq<Fact>) -> bool {
    forall|i: int|
        0 <= i < order.len() ==> match means(#[trigger] order[i]) {
            Means::Free => true,
            Means::By(_, body) => forall|k: int| 0 <= k < body.len() ==> order.take(i).contains(#[trigger] body[k]),
            Means::Nothing => false,
        }
}

/// Whether all facts of a list have stamps below a bound.
pub open spec fn are_stamped_below(facts: Seq<Fact>, at: spec_fn(Fact) -> nat, bound: nat) -> bool {
    forall|k: int| 0 <= k < facts.len() ==> at(#[trigger] facts[k]) < bound
}

impl<'a> Planner<'a> {
    /// The supporters are well founded: facts can be stamped so that what a supporter
    /// needs has an earlier stamp than the fact that it supports.
    pub proof fn supporters_are_well_founded(&self) -> (res: (spec_fn(Fact) -> nat, nat))
        requires
            self.wf(),
        ensures
            forall|f: Fact| fact_in(self.t().variables, f) ==> #[trigger] (res.0)(f) < res.1,
            forall|f: Fact|
                fact_in(self.t().variables, f) && (#[trigger] self.supporter(f)) is Some ==> are_stamped_below(
                    requirements(
                        self.t().operators[self.supporter(f)->0.operator as int],
                        self.supporter(f)->0.effect as int,
                    ),
                    res.0,
                    (res.0)(f),
                ),
    {
        let t = self.t();
        let vs = t.variables;
        let rs = relaxed_rules(t);
        let s = Sweep { values: self.base_cost@, best: self.best@ };
        let c0 = start_values(t, UNREACHABLE);
        self.lemma_swept();
        assert(self.rules.rules.len() == self.rules.rules@.len());
        assert(rs =~= rule_views(self.rules.rules@));
        let found = noted_rules_are_well_founded(rs, prices_of(t, self.model()), c0, s);
        let at = |f: Fact| (found.0)(number(vs, f));
        assert(self.offsets.len() == self.offsets@.len());
        assert forall|f: Fact| fact_in(vs, f) implies #[trigger] at(f) < found.1 by {
            lemma_number(vs, f);
            assert((found.0)(number(vs, f)) < found.1);
        }
        assert forall|f: Fact| fact_in(vs, f) && (#[trigger] self.supporter(f)) is Some implies are_stamped_below(
            requirements(t.operators[self.supporter(f)->0.operator as int], self.supporter(f)->0.effect as int),
            at,
            at(f),
        ) by {
            lemma_number(vs, f);
            let n = number(vs, f);
            let r = s.best[n]->0 as int;
            let fr = fact_rules(t)[r];
            assert(rs[r] == numbered_rule(vs, fr));
            self.lemma_label(r);
            let a = fr.label->0;
            assert(self.operator_preconditions@[a.operator as int]@ == preconditions_of(t.operators[a.operator as int]));
            lemma_rule_heads(t, r);
            assert(are_earlier(rs[r].body, found.0, (found.0)(n)));
            assert forall|k: int| 0 <= k < fr.body.len() implies at(#[trigger] fr.body[k]) < at(f) by {
                assert(fact_in(vs, fr.body[k]));
                lemma_number(vs, fr.body[k]);
                assert((found.0)(rs[r].body[k] as int) < (found.0)(n));
            }
        }
        (at, found.1)
    }

    /// The facts of a relaxed plan without derived facts are facts of the task.
    proof fn lemma_needed_in(&self, free: Seq<Fact>, goals: Seq<Fact>, achieved: Seq<Fact>, i: int)
        requires
            self.wf(),
            facts_in(self.t().variables, goals),
            all_needed(goals, self.means(free), achieved),
            forall|k: int| 0 <= k < achieved.len() ==> !self.t().derived((#[trigger] achieved[k]).variable as int),
            0 <= i < achieved.len(),
        ensures
            fact_in(self.t().variables, achieved[i]),
        decreases i,
    {
        let t = self.t();
        let vs = t.variables;
        assert(is_needed(goals, self.means(free), achieved, i));
        if goals.contains(achieved[i]) {
            let k = choose|k: int| 0 <= k < goals.len() && goals[k] == achieved[i];
            assert(fact_in(vs, goals[k]));
        } else {
            let j = choose|j: int|
                0 <= j < i && (match (self.means(free))(#[trigger] achieved[j]) {
                    Means::By(_, body) => body.contains(achieved[i]),
                    _ => false,
                });
            self.lemma_needed_in(free, goals, achieved, j);
            self.lemma_swept();
            lemma_number(vs, achieved[j]);
            let r = self.best@[number(vs, achieved[j])]->0 as int;
            let fr = fact_rules(t)[r];
            self.lemma_label(r);
            let a = fr.label->0;
            assert(self.operator_preconditions@[a.operator as int]@ == preconditions_of(t.operators[a.operator as int]));
            lemma_rule_heads(t, r);
            let k = choose|k: int| 0 <= k < fr.body.len() && fr.body[k] == achieved[i];
            assert(fact_in(vs, fr.body[k]));
        }
    }

    /// A relaxed plan can be carried out: where none of its facts is derived, they can be
    /// listed so that each is there already or is given by an operator that needs no fact
    /// but those in front of it.
    pub proof fn relaxed_plans_can_be_carried_out(&self, free: Seq<Fact>, goals: Seq<Fact>, achieved: Seq<Fact>, ops: Seq<usize>) -> (order: Seq<
        Fact,
    >)
        requires
            self.wf(),
            is_relaxed_plan(goals, self.means(free), achieved, ops),
            facts_in(self.t().variables, goals),
            forall|i: int| 0 <= i < achieved.len() ==> !self.t().derived((#[trigger] achieved[i]).variable as int),
        ensures
            forall|f: Fact| #[trigger] order.contains(f) <==> achieved.contains(f),
            is_executable(self.means(free), order),
    {
        let means = self.means(free);
        let (at, bound) = self.supporters_are_well_founded();
        let order = by_stamp(achieved, at, bound);
        lemma_by_stamp(achieved, at, bound);
        assert forall|f: Fact| #[trigger] order.contains(f) <==> achieved.contains(f) by {
            if achieved.contains(f) {
                let i = choose|i: int| 0 <= i < achieved.len() && achieved[i] == f;
                self.lemma_needed_in(free, goals, achieved, i);
                assert(at(f) < bound);
            }
        }
        assert forall|i: int| 0 <= i < order.len() implies match means(#[trigger] order[i]) {
            Means::Free => true,
            Means::By(_, body) => forall|k: int| 0 <= k < body.len() ==> order.take(i).contains(#[trigger] body[k]),
            Means::Nothing => false,
        } by {
            let f = order[i];
            assert(order.contains(f));
            let j = choose|j: int| 0 <= j < achieved.len() && achieved[j] == f;
            self.lemma_needed_in(free, goals, achieved, j);
            if let Means::By(op, body) = means(achieved[j]) {
                assert(self.supporter(f) is Some);
                assert forall|k: int| 0 <= k < body.len() implies order.take(i).contains(#[trigger] body[k]) by {
                    assert(at(body[k]) < at(order[i]));
                    assert(achieved.contains(body[k]));
                }
            }
        }
        order
    }
}

proof fn lemma_fact_sum(t: TaskView, values: Seq<u128>, facts: Seq<Fact>, n: nat)
    requires
        n <= facts.len(),
        facts_in(t.variables, facts),
        count_facts(t.variables) <= usize::MAX,
    ensures
        body_sum(values, numbers(t.variables, facts), n) == fact_sum(t, values, facts, n),
    decreases n,
{
    if n > 0 {
        lemma_fact_sum(t, values, facts, (n - 1) as nat);
        assert(fact_in(t.variables, facts[n - 1]));
        lemma_number(t.variables, facts[n - 1]);
    }
}

/// The rules speak of facts of the task.
proof fn lemma_rule_heads(t: TaskView, r: int)
    requires
        t.wf(),
        sizes_fit(t),
        0 <= r < fact_rules(t).len(),
        fact_rules(t)[r].label is Some,
        achieves(t, fact_rules(t)[r].head, fact_rules(t)[r].label->0),
        fact_rules(t)[r].body == requirements(
            t.operators[(fact_rules(t)[r].label->0).operator as int],
            (fact_rules(t)[r].label->0).effect as int,
        ),
        facts_in(t.variables, preconditions_of(t.operators[(fact_rules(t)[r].label->0).operator as int])),
    ensures
        fact_in(t.variables, fact_rules(t)[r].head),
        facts_in(t.variables, fact_rules(t)[r].body),
{
    let a = fact_rules(t)[r].label->0;
    let o = t.operators[a.operator as int];
    assert(operator_in(t.variables, o));
    assert(effect_in(t.variables, o.effects[a.effect as int]));
    lemma_with_new_in(t.variables, preconditions_of(o), o.effects[a.effect as int].conditions, o.effects[a.effect as int].conditions.len());
}

proof fn lemma_effect_rules(t: TaskView, o: nat, n: nat)
    requires
        sizes_fit(t),
        o < t.operators.len(),
        n <= t.operators[o as int].effects.len(),
    ensures
        effect_rules(t, o, n).len() == n,
        forall|i: int|
            0 <= i < n ==> {
                let r = #[trigger] effect_rules(t, o, n)[i];
                &&& r.label matches Some(a) && a.operator == o && a.effect == i && achieves(t, r.head, a) && r.body == requirements(
                    t.operators[o as int],
                    i,
                )
            },
    decreases n,
{
    if n > 0 {
        lemma_effect_rules(t, o, (n - 1) as nat);
        let before = effect_rules(t, o, (n - 1) as nat);
        let after = effect_rules(t, o, n);
        assert forall|i: int| 0 <= i < n implies {
            let r = #[trigger] after[i];
            &&& r.label matches Some(a) && a.operator == o && a.effect == i && achieves(t, r.head, a) && r.body == requirements(
                t.operators[o as int],
                i,
            )
        } by {
            if i < n - 1 {
                assert(after[i] == before[i]);
            }
        }
    }
}

proof fn lemma_operator_rules(t: TaskView, n: nat)
    requires
        sizes_fit(t),
        n <= t.operators.len(),
    ensures
        forall|i: int|
            0 <= i < operator_rules(t, n).len() ==> {
                let r = #[trigger] operator_rules(t, n)[i];
                &&& r.label matches Some(a) && achieves(t, r.head, a) && r.body == requirements(
                    t.operators[a.operator as int],
                    a.effect as int,
                )
            },
    decreases n,
{
    if n > 0 {
        lemma_operator_rules(t, (n - 1) as nat);
        lemma_effect_rules(t, (n - 1) as nat, t.operators[n - 1].effects.len());
        let before = operator_rules(t, (n - 1) as nat);
        let more = effect_rules(t, (n - 1) as nat, t.operators[n - 1].effects.len());
        let after = operator_rules(t, n);
        assert forall|i: int| 0 <= i < after.len() implies {
            let r = #[trigger] after[i];
            &&& r.label matches Some(a) && achieves(t, r.head, a) && r.body == requirements(
                t.operators[a.operator as int],
                a.effect as int,
            )
        } by {
            if i < before.len() {
                assert(after[i] == before[i]);
            } else {
                assert(after[i] == more[i - before.len()]);
            }
        }
    }
}

proof fn lemma_value_rules(t: TaskView, v: nat, w: nat)
    requires
        v < t.variables.len() <= usize::MAX,
        w <= t.variables[v as int].values.len() <= usize::MAX,
    ensures
        forall|i: int|
            0 <= i < value_rules(t, v, w).len() ==> (#[trigger] value_rules(t, v, w)[i]).label is None && value_rules(
                t,
                v,
                w,
            )[i].head.variable == v && fact_in(t.variables, value_rules(t, v, w)[i].head),
    decreases w,
{
    if w > 0 {
        lemma_value_rules(t, v, (w - 1) as nat);
        let fact = Fact { variable: v as usize, value: (w - 1) as usize };
        let before = value_rules(t, v, (w - 1) as nat);
        let more = support_rules(fact, supports_of(t, fact));
        let after = value_rules(t, v, w);
        assert forall|i: int| 0 <= i < after.len() implies (#[trigger] after[i]).label is None && after[i].head.variable == v
            && fact_in(t.variables, after[i].head) by {
            if i < before.len() {
                assert(after[i] == before[i]);
            } else {
                assert(after[i] == more[i - before.len()]);
            }
        }
    }
}

proof fn lemma_derived_rules(t: TaskView, v: nat)
    requires
        v <= t.variables.len() <= usize::MAX,
        count_facts(t.variables) <= usize::MAX,
    ensures
        forall|i: int|
            0 <= i < derived_rules(t, v).len() ==> (#[trigger] derived_rules(t, v)[i]).label is None && t.derived(
                derived_rules(t, v)[i].head.variable as int,
            ) && fact_in(t.variables, derived_rules(t, v)[i].head),
    decreases v,
{
    if v > 0 {
        lemma_derived_rules(t, (v - 1) as nat);
        let before = derived_rules(t, (v - 1) as nat);
        let after = derived_rules(t, v);
        if t.derived(v - 1) {
            let more = value_rules(t, (v - 1) as nat, t.variables[v - 1].values.len());
            lemma_count_take(t.variables, v - 1);
            lemma_value_rules(t, (v - 1) as nat, t.variables[v - 1].values.len());
            let k = choose|k: int| 0 <= k < t.axioms.len() && (#[trigger] t.axioms[k]).variable == v - 1;
            assert(t.axioms[k].variable == v - 1);
            assert forall|i: int| 0 <= i < after.len() implies (#[trigger] after[i]).label is None && t.derived(
                after[i].head.variable as int,
            ) && fact_in(t.variables, after[i].head) by {
                if i < before.len() {
                    assert(after[i] == before[i]);
                } else {
                    assert(after[i] == more[i - before.len()]);
                }
            }
        }
    }
}

/// Only initial facts start at zero.
proof fn lemma_initial_numbers(t: TaskView, v: nat, fact: Fact)
    requires
        t.wf(),
        v <= t.variables.len(),
        count_facts(t.variables) <= usize::MAX,
        t.variables.len() <= usize::MAX,
        fact_in(t.variables, fact),
        t.initial[fact.variable as int] != fact.value,
    ensures
        forall|k: int|
            0 <= k < numbers(t.variables, initial_facts(t, v)).len() ==> #[trigger] numbers(t.variables, initial_facts(t, v))[k] != number(
                t.variables,
                fact,
            ),
    decreases v,
{
    if v > 0 {
        lemma_initial_numbers(t, (v - 1) as nat, fact);
        let before = initial_facts(t, (v - 1) as nat);
        let after = initial_facts(t, v);
        assert forall|k: int| 0 <= k < numbers(t.variables, after).len() implies #[trigger] numbers(t.variables, after)[k] != number(
            t.variables,
            fact,
        ) by {
            if k < before.len() {
                assert(after[k] == before[k]);
                assert(numbers(t.variables, before)[k] != number(t.variables, fact));
            } else {
                let f = after[k];
                assert(t.initial[v - 1] < t.variables[v - 1].values.len());
                assert(fact_in(t.variables, f));
                lemma_number(t.variables, f);
                if number(t.variables, f) == number(t.variables, fact) {
                    numbers_differ(t.variables, f, fact);
                }
            }
        }
    }
}

/// The sum of the estimates of the facts, up to [`UNREACHABLE`].
fn sum_of(planner: &Planner, values: &Vec<u128>, facts: &Vec<Fact>) -> (res: u128)
    requires
        planner.wf(),
        values@.len() == count_facts(planner.t().variables),
        facts_in(planner.t().variables, facts@),
    ensures
        res == clause_cost(planner.t(), values@, facts@),
{
    let ghost t = planner.t();
    let mut res: u128 = 0;
    let mut i: usize = 0;
    while i < facts.len()
        invariant
            t == planner.t(),
            planner.wf(),
            values@.len() == count_facts(t.variables),
            facts_in(t.variables, facts@),
            i <= facts@.len(),
            res == capped(fact_sum(t, values@, facts@, i as nat), UNREACHABLE),
        decreases facts@.len() - i,
    {
        assert(fact_in(t.variables, facts@[i as int]));
        let at = planner.index(facts[i]);
        res = res.saturating_add(values[at]);
        i = i + 1;
    }
    res
}

/// Whether the list has the fact.
fn has_fact(facts: &Vec<Fact>, fact: Fact) -> (res: bool)
    ensures
        res == facts@.contains(fact),
{
    let mut i: usize = 0;
    while i < facts.len()
        invariant
            i <= facts@.len(),
            forall|k: int| 0 <= k < i ==> #[trigger] facts@[k] != fact,
        decreases facts@.len() - i,
    {
        if facts[i] == fact {
            assert(facts@.contains(fact));
            return true;
        }
        i = i + 1;
    }
    false
}

/// Adds the number unless it is there.
fn note_operator(ops: &mut Vec<usize>, op: usize)
    requires
        old(ops)@.no_duplicates(),
    ensures
        final(ops)@.no_duplicates(),
        final(ops)@ == old(ops)@ || final(ops)@ == old(ops)@.push(op),
        final(ops)@.contains(op),
        forall|x: usize| old(ops)@.contains(x) ==> #[trigger] final(ops)@.contains(x),
{
    let mut i: usize = 0;
    while i < ops.len()
        invariant
            i <= ops@.len(),
            ops@ == old(ops)@,
            ops@.no_duplicates(),
            forall|k: int| 0 <= k < i ==> #[trigger] ops@[k] != op,
        decreases ops@.len() - i,
    {
        if ops[i] == op {
            assert(ops@.contains(op));
            return;
        }
        i = i + 1;
    }
    let ghost before = ops@;
    ops.push(op);
    proof {
        assert(ops@[before.len() as int] == op);
        assert forall|x: usize| before.contains(x) implies #[trigger] ops@.contains(x) by {
            let k = choose|k: int| 0 <= k < before.len() && before[k] == x;
            assert(ops@[k] == x);
        }
    }
}

/// The next fact is needed whatever is listed before it.
proof fn lemma_more_needed(goals: Seq<Fact>, means: spec_fn(Fact) -> Means, achieved: Seq<Fact>, f: Fact)
    requires
        all_needed(goals, means, achieved),
        goals.contains(f) || exists|j: int|
            0 <= j < achieved.len() && (match means(#[trigger] achieved[j]) {
                Means::By(_, body) => body.contains(f),
                _ => false,
            }),
    ensures
        all_needed(goals, means, achieved.push(f)),
{
    let after = achieved.push(f);
    assert forall|i: int| 0 <= i < after.len() implies #[trigger] is_needed(goals, means, after, i) by {
        if i < achieved.len() {
            assert(is_needed(goals, means, achieved, i));
            assert(after[i] == achieved[i]);
            if !goals.contains(after[i]) {
                let j = choose|j: int|
                    0 <= j < i && (match means(#[trigger] achieved[j]) {
                        Means::By(_, body) => body.contains(achieved[i]),
                        _ => false,
                    });
                assert(after[j] == achieved[j]);
            }
        } else {
            if !goals.contains(f) {
                let j = choose|j: int|
                    0 <= j < achieved.len() && (match means(#[trigger] achieved[j]) {
                        Means::By(_, body) => body.contains(f),
                        _ => false,
                    });
                assert(after[j] == achieved[j]);
            }
        }
    }
}

/// The fact is a goal or needed by a listed fact.
spec fn wanted(goals: Seq<Fact>, means: spec_fn(Fact) -> Means, achieved: Seq<Fact>, f: Fact) -> bool {
    goals.contains(f) || exists|j: int|
        0 <= j < achieved.len() && (match means(#[trigger] achieved[j]) {
            Means::By(_, body) => body.contains(f),
            _ => false,
        })
}

proof fn lemma_still_wanted(goals: Seq<Fact>, means: spec_fn(Fact) -> Means, achieved: Seq<Fact>, g: Fact, f: Fact)
    requires
        wanted(goals, means, achieved, f),
    ensures
        wanted(goals, means, achieved.push(g), f),
{
    if !goals.contains(f) {
        let j = choose|j: int|
            0 <= j < achieved.len() && (match means(#[trigger] achieved[j]) {
                Means::By(_, body) => body.contains(f),
                _ => false,
            });
        assert(achieved.push(g)[j] == achieved[j]);
    }
}

proof fn lemma_still_chosen(means: spec_fn(Fact) -> Means, achieved: Seq<Fact>, g: Fact, op: usize)
    requires
        is_chosen(means, achieved, op),
    ensures
        is_chosen(means, achieved.push(g), op),
{
    let i = choose|i: int|
        0 <= i < achieved.len() && (match means(#[trigger] achieved[i]) {
            Means::By(Some(o), _) => o == op,
            _ => false,
        });
    assert(achieved.push(g)[i] == achieved[i]);
}

/// What a listed fact needs is listed or waiting, and its operator is noted.
spec fn served(means: spec_fn(Fact) -> Means, achieved: Seq<Fact>, waiting: Seq<Fact>, ops: Seq<usize>, f: Fact) -> bool {
    match means(f) {
        Means::Free => true,
        Means::By(op, body) => {
            &&& op matches Some(o) ==> ops.contains(o)
            &&& forall|k: int| 0 <= k < body.len() ==> achieved.contains(#[trigger] body[k]) || waiting.contains(body[k])
        },
        Means::Nothing => false,
    }
}

impl<'a> Planner<'a> {
    /// How a relaxed plan gets the fact: nothing, or the operator and what it needs.
    fn way(&self, free: &Vec<Fact>, fact: Fact) -> (res: Option<(Option<usize>, Vec<Fact>)>)
        requires
            self.wf(),
            fact_in(self.t().variables, fact),
        ensures
            match (self.means(free@))(fact) {
                Means::Free => res matches Some((found, needs)) && found is None && needs@.len() == 0,
                Means::By(op, body) => res matches Some((found, needs)) && found == op && needs@ == body && facts_in(
                    self.t().variables,
                    body,
                ) && (op matches Some(o) ==> o < self.t().operators.len()),
                Means::Nothing => res is None,
            },
    {
        let ghost t = self.t();
        proof {
            self.lemma_base();
            self.lemma_swept();
        }
        if (!self.task.is_derived_variable(fact.variable) && self.task.initial[fact.variable] == fact.value) || has_fact(free, fact) {
            return Some((None, Vec::new()));
        }
        if let Some(supports) = self.supports(fact) {
            if supports.len() == 0 {
                return None;
            }
            let ghost sv = clauses(supports@);
            let ghost values = self.base_cost@;
            proof {
                supports_are_base_facts(self.task, fact);
                assert forall|i: int| 0 <= i < sv.len() implies facts_in(t.variables, #[trigger] supports@[i]@) by {
                    assert(sv[i] == supports@[i]@);
                    assert(crate::supports::base_clause(t, sv[i]));
                    assert forall|j: int| 0 <= j < supports@[i]@.len() implies fact_in(t.variables, #[trigger] supports@[i]@[j]) by {
                        assert(fact_in(t.variables, sv[i][j]));
                    }
                }
            }
            let mut best: usize = 0;
            let mut best_cost = sum_of(self, &*self.base_cost, &supports[0]);
            let mut k: usize = 1;
            assert(sv[0] == supports@[0]@);
            while k < supports.len()
                invariant
                    t == self.t(),
                    self.wf(),
                    values == self.base_cost@,
                    values.len() == count_facts(t.variables),
                    sv == clauses(supports@),
                    forall|i: int| 0 <= i < sv.len() ==> facts_in(t.variables, #[trigger] supports@[i]@),
                    1 <= k <= supports@.len(),
                    best < supports@.len(),
                    best == cheapest(t, values, sv, k as nat),
                    best_cost == clause_cost(t, values, sv[best as int]),
                decreases supports@.len() - k,
            {
                let cost = sum_of(self, &*self.base_cost, &supports[k]);
                assert(sv[k as int] == supports@[k as int]@);
                if cost < best_cost {
                    best = k;
                    best_cost = cost;
                }
                k = k + 1;
            }
            assert(sv[best as int] == supports@[best as int]@);
            return Some((None, copy_vec(&supports[best])));
        }
        let at = self.index(fact);
        match self.best[at] {
            None => None,
            Some(r) => {
                proof {
                    assert(relaxed_rules(t).len() == fact_rules(t).len());
                    assert(self.rules.labels@ == labels_of(t));
                    self.lemma_label(r as int);
                }
                match self.rules.labels[r] {
                    None => None,
                    Some(a) => {
                        let operator = &self.task.operators[a.operator];
                        let ghost ov = t.operators[a.operator as int];
                        assert(ov == operator@);
                        assert(operator_in(t.variables, ov));
                        let effect = &operator.effects[a.effect];
                        assert(ov.effects[a.effect as int] == effect@);
                        assert(effect_in(t.variables, ov.effects[a.effect as int]));
                        let pre = self.preconditions(a.operator);
                        let body = union_of(pre, &effect.conditions);
                        proof {
                            lemma_with_new_in(t.variables, pre@, effect.conditions@, effect.conditions@.len());
                        }
                        Some((Some(a.operator), body))
                    },
                }
            },
        }
    }

    /// Extracts one joint delete-relaxed support graph for every open
    /// finite-domain equality and sums the costs of its operators. Unlike the
    /// additive estimate, an operator selected for several effects is counted
    /// once, exposing shared moves and other shared support. `None` when a
    /// needed fact cannot be had.
    pub fn relaxed_plan_size(&self, plan: &PartialPlan, reuse: bool) -> (res: Option<u128>)
        requires
            self.wf(),
            plan_in(self.t(), plan@),
        ensures
            ({
                let goals = open_facts(plan@);
                let means = self.means(reused(self.t(), plan@, reuse));
                match res {
                    Some(h) => exists|achieved: Seq<Fact>, ops: Seq<usize>| #[trigger]
                        is_relaxed_plan(goals, means, achieved, ops) && h == operators_cost(self.t(), self.model(), ops),
                    None => exists|achieved: Seq<Fact>|
                        #![trigger all_needed(goals, means, achieved)]
                        all_needed(goals, means, achieved) && achieved.len() > 0 && means(achieved.last()) is Nothing,
                }
            }),
    {
        let ghost t = self.t();
        let ghost vs = t.variables;
        let free = self.reusable(plan, reuse);
        let ghost goals = open_facts(plan@);
        let ghost means = self.means(free@);
        let mut flags: Vec<bool> = Vec::new();
        let n = self.task.num_facts();
        let mut i: usize = 0;
        while i < n
            invariant
                i <= n,
                flags@.len() == i,
                forall|k: int| 0 <= k < i ==> !(#[trigger] flags@[k]),
            decreases n - i,
        {
            flags.push(false);
            i = i + 1;
        }
        let mut worklist: Vec<Fact> = Vec::new();
        let mut i: usize = 0;
        while i < plan.open_conditions.len()
            invariant
                i <= plan@.opens.len(),
                t == self.t(),
                goals == open_facts(plan@),
                plan_in(t, plan@),
                worklist@ == goals.take(i as int),
            decreases plan@.opens.len() - i,
        {
            worklist.push(plan.open_conditions[i].condition);
            assert(goals.take(i + 1) =~= goals.take(i as int).push(goals[i as int]));
            i = i + 1;
        }
        assert(goals.take(i as int) =~= goals);
        let mut chosen: Vec<usize> = Vec::new();
        let ghost mut achieved: Seq<Fact> = Seq::empty();
        proof {
            assert forall|k: int| 0 <= k < worklist@.len() implies fact_in(vs, #[trigger] worklist@[k]) && wanted(
                goals,
                means,
                achieved,
                worklist@[k],
            ) by {
                assert(goals[k] == plan@.opens[k].condition);
                assert(goals.contains(goals[k]));
            }
            assert forall|k: int| 0 <= k < goals.len() implies achieved.contains(#[trigger] goals[k]) || worklist@.contains(goals[k]) by {
                assert(worklist@[k] == goals[k]);
            }
            assert forall|f: Fact| fact_in(vs, f) implies #[trigger] achieved.contains(f) == flags@[number(vs, f)] by {
                lemma_number(vs, f);
            }
        }
        while worklist.len() > 0
            invariant
                t == self.t(),
                vs == t.variables,
                self.wf(),
                plan_in(t, plan@),
                goals == open_facts(plan@),
                free@ == reused(t, plan@, reuse),
                means == self.means(free@),
                flags@.len() == count_facts(vs),
                forall|k: int| 0 <= k < worklist@.len() ==> fact_in(vs, #[trigger] worklist@[k]) && wanted(
                    goals,
                    means,
                    achieved,
                    worklist@[k],
                ),
                forall|k: int| 0 <= k < goals.len() ==> achieved.contains(#[trigger] goals[k]) || worklist@.contains(goals[k]),
                forall|f: Fact| fact_in(vs, f) ==> #[trigger] achieved.contains(f) == flags@[number(vs, f)],
                all_needed(goals, means, achieved),
                forall|k: int| 0 <= k < achieved.len() ==> served(means, achieved, worklist@, chosen@, #[trigger] achieved[k]),
                chosen@.no_duplicates(),
                forall|k: int| 0 <= k < chosen@.len() ==> is_chosen(means, achieved, #[trigger] chosen@[k]) && chosen@[k]
                    < t.operators.len(),
            decreases unmarked(flags@), worklist@.len(),
        {
            let ghost list = worklist@;
            let ghost before = achieved;
            let goal = worklist.pop().unwrap();
            assert(goal == list[list.len() - 1]);
            assert(fact_in(vs, list[list.len() - 1]));
            assert(wanted(goals, means, achieved, list[list.len() - 1]));
            proof {
                assert forall|f: Fact| list.contains(f) implies f == goal || worklist@.contains(f) by {
                    let k = choose|k: int| 0 <= k < list.len() && list[k] == f;
                    if k < list.len() - 1 {
                        assert(worklist@[k] == f);
                    }
                }
            }
            let at = self.index(goal);
            if flags[at] {
                proof {
                    assert(achieved.contains(goal));
                    assert forall|k: int| 0 <= k < achieved.len() implies served(
                        means,
                        achieved,
                        worklist@,
                        chosen@,
                        #[trigger] achieved[k],
                    ) by {
                        assert(served(means, achieved, list, chosen@, achieved[k]));
                    }
                    assert forall|k: int| 0 <= k < worklist@.len() implies fact_in(vs, #[trigger] worklist@[k]) && wanted(
                        goals,
                        means,
                        achieved,
                        worklist@[k],
                    ) by {
                        assert(worklist@[k] == list[k]);
                    }
                }
                continue;
            }
            let way = self.way(&free, goal);
            let ghost flags_before = flags@;
            let ghost after = achieved.push(goal);
            proof {
                lemma_more_needed(goals, means, achieved, goal);
                assert(after.last() == goal);
            }
            let (op, body) = match way {
                Some(found) => found,
                None => {
                    return None;
                },
            };
            flags.set(at, true);
            let ghost chosen_before = chosen@;
            if let Some(o) = op {
                note_operator(&mut chosen, o);
            }
            let ghost rest = worklist@;
            let mut k: usize = 0;
            while k < body.len()
                invariant
                    k <= body@.len(),
                    worklist@ == rest + body@.take(k as int),
                decreases body@.len() - k,
            {
                worklist.push(body[k]);
                assert(rest + body@.take(k + 1) =~= (rest + body@.take(k as int)).push(body@[k as int]));
                k = k + 1;
            }
            assert(body@.take(k as int) =~= body@);
            proof {
                achieved = after;
                lemma_unmarked(flags_before, at as int);
                assert(after[before.len() as int] == goal);
                assert forall|f: Fact| before.contains(f) implies after.contains(f) by {
                    let j = choose|j: int| 0 <= j < before.len() && before[j] == f;
                    assert(after[j] == f);
                }
                assert(after.contains(goal));
                assert forall|f: Fact| rest.contains(f) implies worklist@.contains(f) by {
                    let j = choose|j: int| 0 <= j < rest.len() && rest[j] == f;
                    assert(worklist@[j] == f);
                }
                assert forall|f: Fact| fact_in(vs, f) implies #[trigger] after.contains(f) == flags@[number(vs, f)] by {
                    lemma_number(vs, f);
                    lemma_number(vs, goal);
                    if f != goal {
                        if number(vs, f) == number(vs, goal) {
                            numbers_differ(vs, f, goal);
                        }
                        assert(before.contains(f) == flags_before[number(vs, f)]);
                        if after.contains(f) {
                            let j = choose|j: int| 0 <= j < after.len() && after[j] == f;
                            assert(before[j] == f);
                        }
                    }
                }
                assert forall|j: int| 0 <= j < worklist@.len() implies fact_in(vs, #[trigger] worklist@[j]) && wanted(
                    goals,
                    means,
                    after,
                    worklist@[j],
                ) by {
                    if j < rest.len() {
                        assert(worklist@[j] == list[j]);
                        lemma_still_wanted(goals, means, before, goal, list[j]);
                    } else {
                        assert(worklist@[j] == body@[j - rest.len()]);
                        assert(body@.contains(worklist@[j]));
                        assert(after[before.len() as int] == goal);
                    }
                }
                assert forall|j: int| 0 <= j < goals.len() implies after.contains(#[trigger] goals[j]) || worklist@.contains(goals[j]) by {
                    if !before.contains(goals[j]) {
                        assert(list.contains(goals[j]));
                    }
                }
                assert forall|j: int| 0 <= j < after.len() implies served(means, after, worklist@, chosen@, #[trigger] after[j]) by {
                    if j < before.len() {
                        assert(after[j] == before[j]);
                        assert(served(means, before, list, chosen_before, before[j]));
                    } else {
                        assert forall|m: int| 0 <= m < body@.len() implies worklist@.contains(#[trigger] body@[m]) by {
                            assert(worklist@[rest.len() + m] == body@[m]);
                        }
                    }
                }
                assert forall|m: int| 0 <= m < chosen@.len() implies is_chosen(means, after, #[trigger] chosen@[m]) && chosen@[m]
                    < t.operators.len() by {
                    if m < chosen_before.len() {
                        assert(chosen@[m] == chosen_before[m]);
                        lemma_still_chosen(means, before, goal, chosen_before[m]);
                    } else {
                        assert(after[before.len() as int] == goal);
                    }
                }
            }
        }
        let mut sum: u128 = 0;
        let mut i: usize = 0;
        while i < chosen.len()
            invariant
                t == self.t(),
                self.wf(),
                i <= chosen@.len(),
                forall|k: int| 0 <= k < chosen@.len() ==> #[trigger] chosen@[k] < t.operators.len(),
                sum == operators_cost(t, self.model(), chosen@.take(i as int)),
            decreases chosen@.len() - i,
        {
            let ghost upto = chosen@.take(i + 1);
            proof {
                assert(upto.drop_last() =~= chosen@.take(i as int));
                lemma_operators_cost(t, self.model(), upto);
                assert(upto.len() * usize::MAX <= usize::MAX * usize::MAX) by (nonlinear_arith)
                    requires
                        upto.len() <= usize::MAX,
                ;
                assert(usize::MAX * usize::MAX <= 0xffff_ffff_ffff_ffff * 0xffff_ffff_ffff_ffff) by (nonlinear_arith)
                    requires
                        0 <= usize::MAX <= 0xffff_ffff_ffff_ffff,
                ;
                assert(t.operators[chosen@[i as int] as int] == self.task.operators@[chosen@[i as int] as int]@);
            }
            sum = sum + self.action_cost.resolve(self.task.operators[chosen[i]].cost) as u128;
            i = i + 1;
        }
        proof {
            assert(chosen@.take(i as int) =~= chosen@);
            assert(is_relaxed_plan(goals, means, achieved, chosen@)) by {
                assert forall|k: int| 0 <= k < achieved.len() implies match means(#[trigger] achieved[k]) {
                    Means::Free => true,
                    Means::By(op, body) => {
                        &&& op matches Some(o) ==> chosen@.contains(o)
                        &&& forall|m: int| 0 <= m < body.len() ==> achieved.contains(#[trigger] body[m])
                    },
                    Means::Nothing => false,
                } by {
                    assert(served(means, achieved, worklist@, chosen@, achieved[k]));
                }
                assert forall|k: int| 0 <= k < goals.len() implies achieved.contains(#[trigger] goals[k]) by {}
            }
        }
        Some(sum)
    }

    /// The LM-cut estimate of the open conditions, with the effects of the steps
    /// free of charge on reuse.
    pub fn lmcut_estimate(&self, plan: &PartialPlan, reuse: bool) -> (res: Option<u32>)
        requires
            self.wf(),
            plan_in(self.t(), plan@),
            self.lm() is Ok,
        ensures
            is_lmcut_estimate(self.lm()->Ok_0, self.t(), plan@, reuse, res),
    {
        let ghost t = self.t();
        let reusable = self.reusable(plan, reuse);
        let mut goals: Vec<Fact> = Vec::new();
        let mut i: usize = 0;
        while i < plan.open_conditions.len()
            invariant
                i <= plan@.opens.len(),
                goals@ == open_facts(plan@).take(i as int),
            decreases plan@.opens.len() - i,
        {
            goals.push(plan.open_conditions[i].condition);
            assert(open_facts(plan@).take(i + 1) =~= open_facts(plan@).take(i as int).push(open_facts(plan@)[i as int]));
            i = i + 1;
        }
        proof {
            assert(open_facts(plan@).take(i as int) =~= open_facts(plan@));
            assert forall|k: int| 0 <= k < goals@.len() implies fact_in(t.variables, #[trigger] goals@[k]) by {
                assert(fact_in(t.variables, plan@.opens[k].condition));
            }
        }
        match &self.lmcut {
            Ok(lm) => lm.evaluate(&reusable, &goals),
            Err(_) => None,
        }
    }
}

/// The value is the LM-cut value of the plan's open conditions from the initial
/// facts and the reused ones, as far as it is in range.
pub open spec fn is_lmcut_estimate(lm: FdrLmCut, t: TaskView, p: PlanView, reuse: bool, res: Option<u32>) -> bool {
    let acts = lm.graph().acts();
    let start = numbers(t.variables, initial_facts(t, t.variables.len())) + numbers(t.variables, reused(t, p, reuse));
    let ends = numbers(t.variables, open_facts(p));
    &&& p.opens.len() == 0 ==> res == Some(0u32)
    &&& is_lm_cut_result(acts, start, ends, res)
}

} // verus!
