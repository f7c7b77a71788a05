//! Parsed finite-domain (SAS+) planning tasks.
//!
//! This module retains the translator's invariant groups: a [`Fact`] is an
//! equality `variable = value`, and an [`Effect`] is an assignment to one
//! variable.
use vstd::prelude::*;

use crate::text::{decimal, push_number};

verus! {

/// A finite-domain fact `variable = value`.
#[derive(Debug, Clone, Copy, PartialEq, Eq, PartialOrd, Ord, Hash, Structural)]
pub struct Fact {
    pub variable: usize,
    pub value: usize,
}

impl Fact {
    pub fn new(variable: usize, value: usize) -> (res: Self)
        ensures
            res == (Fact { variable, value }),
    {
        Fact { variable, value }
    }
}

/// One SAS+ state variable and its printable values.
#[derive(Debug)]
pub struct Variable {
    pub name: String,
    pub values: Vec<String>,
}

/// A conditional finite-domain assignment.
#[derive(Debug)]
pub struct Effect {
    /// Conditions local to this effect. Operator applicability conditions are
    /// stored separately in [`Operator::prevail`] and `pre`.
    pub conditions: Vec<Fact>,
    pub variable: usize,
    /// Required old value of the affected variable, when present. In the SAS+
    /// format this is an operator applicability condition even for a
    /// conditional effect.
    pub pre: Option<usize>,
    pub post: usize,
}

impl Effect {
    pub fn assignment(&self) -> (res: Fact)
        ensures
            res == (Fact { variable: self.variable, value: self.post }),
    {
        Fact::new(self.variable, self.post)
    }
}

/// A ground SAS+ operator.
#[derive(Debug)]
pub struct Operator {
    pub name: String,
    pub prevail: Vec<Fact>,
    pub effects: Vec<Effect>,
    pub cost: usize,
}

/// One grounded SAS+ axiom rule. Derived variables are reset to their default
/// (last) value before the rule closure is evaluated in each state.
#[derive(Debug)]
pub struct Axiom {
    pub conditions: Vec<Fact>,
    pub variable: usize,
    pub pre: usize,
    pub post: usize,
}

/// A fully grounded finite-domain planning task.
#[derive(Debug)]
pub struct Task {
    pub variables: Vec<Variable>,
    /// One value per variable.
    pub initial: Vec<usize>,
    pub goals: Vec<Fact>,
    pub operators: Vec<Operator>,
    pub axioms: Vec<Axiom>,
}

/// A parse failure and the line it was met on.
#[derive(Debug)]
pub struct ParseError {
    pub line: usize,
    pub message: String,
}

impl ParseError {
    /// What the error says.
    pub open spec fn message_text(&self) -> Seq<char> {
        "SAS+ parse error at line "@ + decimal(self.line as nat) + ": "@ + self.message@
    }

    /// The error as it is shown to the user.
    pub fn to_text(&self) -> (res: String)
        ensures
            res@ == self.message_text(),
    {
        let mut res = String::from_str("SAS+ parse error at line ");
        push_number(&mut res, self.line as u128);
        res.append(": ");
        res.append(self.message.as_str());
        res
    }
}

// ---------------------------------------------------------------------------
// Mathematical views
// ---------------------------------------------------------------------------

pub struct VariableView {
    pub name: Seq<char>,
    pub values: Seq<Seq<char>>,
}

pub struct EffectView {
    pub conditions: Seq<Fact>,
    pub variable: usize,
    pub pre: Option<usize>,
    pub post: usize,
}

pub struct OperatorView {
    pub name: Seq<char>,
    pub prevail: Seq<Fact>,
    pub effects: Seq<EffectView>,
    pub cost: usize,
}

pub struct AxiomView {
    pub conditions: Seq<Fact>,
    pub variable: usize,
    pub pre: usize,
    pub post: usize,
}

pub struct TaskView {
    pub variables: Seq<VariableView>,
    pub initial: Seq<usize>,
    pub goals: Seq<Fact>,
    pub operators: Seq<OperatorView>,
    pub axioms: Seq<AxiomView>,
}

pub open spec fn string_views(v: Seq<String>) -> Seq<Seq<char>> {
    v.map_values(|s: String| s@)
}

impl View for Variable {
    type V = VariableView;

    open spec fn view(&self) -> VariableView {
        VariableView { name: self.name@, values: string_views(self.values@) }
    }
}

impl View for Effect {
    type V = EffectView;

    open spec fn view(&self) -> EffectView {
        EffectView { conditions: self.conditions@, variable: self.variable, pre: self.pre, post: self.post }
    }
}

impl View for Operator {
    type V = OperatorView;

    open spec fn view(&self) -> OperatorView {
        OperatorView {
            name: self.name@,
            prevail: self.prevail@,
            effects: self.effects@.map_values(|e: Effect| e@),
            cost: self.cost,
        }
    }
}

impl View for Axiom {
    type V = AxiomView;

    open spec fn view(&self) -> AxiomView {
        AxiomView { conditions: self.conditions@, variable: self.variable, pre: self.pre, post: self.post }
    }
}

pub open spec fn variable_views(v: Seq<Variable>) -> Seq<VariableView> {
    v.map_values(|x: Variable| x@)
}

pub open spec fn effect_views(v: Seq<Effect>) -> Seq<EffectView> {
    v.map_values(|x: Effect| x@)
}

pub open spec fn operator_views(v: Seq<Operator>) -> Seq<OperatorView> {
    v.map_values(|x: Operator| x@)
}

pub open spec fn axiom_views(v: Seq<Axiom>) -> Seq<AxiomView> {
    v.map_values(|x: Axiom| x@)
}

impl View for Task {
    type V = TaskView;

    open spec fn view(&self) -> TaskView {
        TaskView {
            variables: variable_views(self.variables@),
            initial: self.initial@,
            goals: self.goals@,
            operators: operator_views(self.operators@),
            axioms: axiom_views(self.axioms@),
        }
    }
}

/// Whether the fact names a variable and one of its values.
pub open spec fn fact_in(variables: Seq<VariableView>, fact: Fact) -> bool {
    fact.variable < variables.len() && fact.value < variables[fact.variable as int].values.len()
}

pub open spec fn facts_in(variables: Seq<VariableView>, facts: Seq<Fact>) -> bool {
    forall|i: int| 0 <= i < facts.len() ==> fact_in(variables, #[trigger] facts[i])
}

pub open spec fn effect_in(variables: Seq<VariableView>, e: EffectView) -> bool {
    &&& facts_in(variables, e.conditions)
    &&& fact_in(variables, Fact { variable: e.variable, value: e.post })
    &&& e.pre matches Some(pre) ==> fact_in(variables, Fact { variable: e.variable, value: pre })
}

pub open spec fn operator_in(variables: Seq<VariableView>, o: OperatorView) -> bool {
    &&& facts_in(variables, o.prevail)
    &&& forall|i: int| 0 <= i < o.effects.len() ==> effect_in(variables, #[trigger] o.effects[i])
}

pub open spec fn axiom_in(variables: Seq<VariableView>, a: AxiomView) -> bool {
    &&& facts_in(variables, a.conditions)
    &&& fact_in(variables, Fact { variable: a.variable, value: a.pre })
    &&& fact_in(variables, Fact { variable: a.variable, value: a.post })
}

pub open spec fn state_in(variables: Seq<VariableView>, state: Seq<usize>) -> bool {
    &&& state.len() == variables.len()
    &&& forall|v: int| 0 <= v < state.len() ==> #[trigger] state[v] < variables[v].values.len()
}

impl TaskView {
    /// Every fact names an existing variable and value, and the initial state
    /// gives every variable one of its values.
    pub open spec fn wf(self) -> bool {
        &&& state_in(self.variables, self.initial)
        &&& facts_in(self.variables, self.goals)
        &&& forall|i: int| 0 <= i < self.operators.len() ==> operator_in(self.variables, #[trigger] self.operators[i])
        &&& forall|i: int| 0 <= i < self.axioms.len() ==> axiom_in(self.variables, #[trigger] self.axioms[i])
    }
}

impl Task {
    pub open spec fn wf(self) -> bool {
        self@.wf()
    }
}

/// What a parse failure reports.
pub struct ParseErrorView {
    pub line: nat,
    pub message: Seq<char>,
}

impl View for ParseError {
    type V = ParseErrorView;

    open spec fn view(&self) -> ParseErrorView {
        ParseErrorView { line: self.line as nat, message: self.message@ }
    }
}

// ---------------------------------------------------------------------------
// Facts by variable
// ---------------------------------------------------------------------------

/// The facts stand in ascending order of their variables, one per variable.
pub open spec fn one_per_variable(facts: Seq<Fact>) -> bool {
    forall|i: int, j: int| 0 <= i < j < facts.len() ==> #[trigger] facts[i].variable < #[trigger] facts[j].variable
}

/// Two ascending lists with the same facts are the same list.
pub proof fn lemma_same_facts(a: Seq<Fact>, b: Seq<Fact>)
    requires
        one_per_variable(a),
        one_per_variable(b),
        forall|f: Fact| a.contains(f) <==> b.contains(f),
    ensures
        a == b,
    decreases a.len(),
{
    if a.len() == 0 {
        if b.len() > 0 {
            assert(b.contains(b[0]));
        }
        assert(a =~= b);
    } else {
        assert(a.contains(a.last()));
        let k = choose|k: int| 0 <= k < b.len() && b[k] == a.last();
        if k < b.len() - 1 {
            assert(b.contains(b.last()));
            let j = choose|j: int| 0 <= j < a.len() && a[j] == b.last();
            assert(b[k].variable < b[b.len() - 1].variable);
            if j < a.len() - 1 {
                assert(a[j].variable < a[a.len() - 1].variable);
            }
        }
        let a0 = a.drop_last();
        let b0 = b.drop_last();
        assert forall|f: Fact| a0.contains(f) <==> b0.contains(f) by {
            if a0.contains(f) {
                let i = choose|i: int| 0 <= i < a0.len() && a0[i] == f;
                assert(a[i] == f);
                assert(a.contains(f));
                let j = choose|j: int| 0 <= j < b.len() && b[j] == f;
                assert(a[i].variable < a[a.len() - 1].variable);
                assert(b0[j] == f);
            }
            if b0.contains(f) {
                let i = choose|i: int| 0 <= i < b0.len() && b0[i] == f;
                assert(b[i] == f);
                assert(b.contains(f));
                let j = choose|j: int| 0 <= j < a.len() && a[j] == f;
                assert(b[i].variable < b[b.len() - 1].variable);
                assert(a0[j] == f);
            }
        }
        lemma_same_facts(a0, b0);
        assert(a =~= a0.push(a.last()));
        assert(b =~= b0.push(b.last()));
    }
}

/// Gives the fact's variable the fact's value.
fn put_fact(facts: &mut Vec<Fact>, fact: Fact)
    requires
        one_per_variable(old(facts)@),
    ensures
        one_per_variable(final(facts)@),
        forall|f: Fact| #[trigger] final(facts)@.contains(f) <==> (if f.variable == fact.variable {
            f == fact
        } else {
            old(facts)@.contains(f)
        }),
{
    let ghost before = facts@;
    let mut k: usize = 0;
    while k < facts.len() && facts[k].variable < fact.variable
        invariant
            facts@ == before,
            one_per_variable(before),
            k <= before.len(),
            forall|i: int| 0 <= i < k ==> #[trigger] before[i].variable < fact.variable,
        decreases before.len() - k,
    {
        k = k + 1;
    }
    if k < facts.len() && facts[k].variable == fact.variable {
        facts.set(k, fact);
        proof {
            assert forall|f: Fact| #[trigger] facts@.contains(f) <==> (if f.variable == fact.variable {
                f == fact
            } else {
                before.contains(f)
            }) by {
                if facts@.contains(f) {
                    let i = choose|i: int| 0 <= i < facts@.len() && facts@[i] == f;
                    if i != k {
                        assert(before[i] == f);
                        if i < k {
                            assert(before[i].variable < before[k as int].variable);
                        } else {
                            assert(before[k as int].variable < before[i].variable);
                        }
                    }
                }
                if f == fact {
                    assert(facts@[k as int] == f);
                }
                if f.variable != fact.variable && before.contains(f) {
                    let i = choose|i: int| 0 <= i < before.len() && before[i] == f;
                    assert(facts@[i] == f);
                }
            }
        }
    } else {
        facts.insert(k, fact);
        proof {
            let now = facts@;
            assert(now =~= before.insert(k as int, fact));
            assert forall|i: int, j: int| 0 <= i < j < now.len() implies #[trigger] now[i].variable < #[trigger] now[j].variable by {
                let a = if i < k { before[i] } else if i == k { fact } else { before[i - 1] };
                let b = if j < k { before[j] } else if j == k { fact } else { before[j - 1] };
                assert(now[i] == a && now[j] == b);
                if k < before.len() && j > k {
                    if j - 1 > k {
                        assert(before[k as int].variable < before[j - 1].variable);
                    }
                }
            }
            assert forall|f: Fact| #[trigger] now.contains(f) <==> (if f.variable == fact.variable {
                f == fact
            } else {
                before.contains(f)
            }) by {
                if now.contains(f) {
                    let i = choose|i: int| 0 <= i < now.len() && now[i] == f;
                    if i < k {
                        assert(before[i] == f);
                    } else if i > k {
                        assert(before[i - 1] == f);
                        if i - 1 > k {
                            assert(before[k as int].variable < before[i - 1].variable);
                        }
                    }
                }
                if f == fact {
                    assert(now[k as int] == f);
                }
                if before.contains(f) {
                    let i = choose|i: int| 0 <= i < before.len() && before[i] == f;
                    if i < k {
                        assert(now[i] == f);
                    } else {
                        assert(now[i + 1] == f);
                    }
                }
            }
        }
    }
}

/// The value that the last fact about `variable` names.
pub open spec fn last_value(facts: Seq<Fact>, variable: usize) -> Option<usize>
    decreases facts.len(),
{
    if facts.len() == 0 {
        None
    } else if facts.last().variable == variable {
        Some(facts.last().value)
    } else {
        last_value(facts.drop_last(), variable)
    }
}

/// The old value that the last effect on `variable` with an old value requires.
pub open spec fn last_pre(effects: Seq<EffectView>, variable: usize) -> Option<usize>
    decreases effects.len(),
{
    if effects.len() == 0 {
        None
    } else if effects.last().variable == variable && effects.last().pre is Some {
        effects.last().pre
    } else {
        last_pre(effects.drop_last(), variable)
    }
}

/// The value that the operator requires of `variable`: that of an effect's
/// transition, or else that of a prevail fact.
pub open spec fn required_value(o: OperatorView, variable: usize) -> Option<usize> {
    match last_pre(o.effects, variable) {
        Some(v) => Some(v),
        None => last_value(o.prevail, variable),
    }
}

/// `facts` is the complete applicability condition of the operator.
pub open spec fn is_precondition(o: OperatorView, facts: Seq<Fact>) -> bool {
    &&& one_per_variable(facts)
    &&& forall|f: Fact| #[trigger] facts.contains(f) <==> required_value(o, f.variable) == Some(f.value)
}

impl Operator {
    /// Returns the complete applicability condition: prevail facts plus the
    /// pre-values embedded in effects, with at most one value per variable, in
    /// ascending order of the variables.
    pub fn preconditions(&self) -> (res: Vec<Fact>)
        ensures
            is_precondition(self@, res@),
    {
        let mut res: Vec<Fact> = Vec::new();
        let mut i: usize = 0;
        while i < self.prevail.len()
            invariant
                i <= self.prevail@.len(),
                one_per_variable(res@),
                forall|f: Fact|
                    #[trigger] res@.contains(f) <==> last_value(self.prevail@.take(i as int), f.variable) == Some(f.value),
            decreases self.prevail@.len() - i,
        {
            let fact = self.prevail[i];
            put_fact(&mut res, fact);
            i = i + 1;
            assert(self.prevail@.take(i as int).drop_last() =~= self.prevail@.take(i - 1));
        }
        assert(self.prevail@.take(i as int) =~= self.prevail@);
        let ghost effects = self@.effects;
        let mut k: usize = 0;
        while k < self.effects.len()
            invariant
                k <= self.effects@.len(),
                effects == self@.effects,
                one_per_variable(res@),
                forall|f: Fact|
                    #[trigger] res@.contains(f) <==> (match last_pre(effects.take(k as int), f.variable) {
                        Some(v) => Some(v),
                        None => last_value(self.prevail@, f.variable),
                    }) == Some(f.value),
            decreases self.effects@.len() - k,
        {
            let effect = &self.effects[k];
            assert(effects[k as int] == effect@);
            let ghost before = res@;
            if let Some(value) = effect.pre {
                put_fact(&mut res, Fact::new(effect.variable, value));
            }
            k = k + 1;
            assert(effects.take(k as int).drop_last() =~= effects.take(k - 1));
            assert(effects.take(k as int).last() == effect@);
        }
        assert(effects.take(k as int) =~= effects);
        res
    }
}

/// The complete applicability condition names existing facts only.
pub proof fn lemma_precondition_in(variables: Seq<VariableView>, o: OperatorView, facts: Seq<Fact>)
    requires
        operator_in(variables, o),
        is_precondition(o, facts),
    ensures
        facts_in(variables, facts),
{
    assert forall|i: int| 0 <= i < facts.len() implies fact_in(variables, #[trigger] facts[i]) by {
        let f = facts[i];
        assert(facts.contains(f));
        lemma_last_pre_in(variables, o.effects, f.variable);
        lemma_last_value_in(variables, o.prevail, f.variable);
    }
}

/// The facts that an operator requires of the first `n` variables.
spec fn required_upto(o: OperatorView, n: nat) -> Seq<Fact>
    decreases n,
{
    if n == 0 {
        Seq::empty()
    } else {
        let before = required_upto(o, (n - 1) as nat);
        match required_value(o, (n - 1) as usize) {
            Some(value) => before.push(Fact { variable: (n - 1) as usize, value }),
            None => before,
        }
    }
}

proof fn lemma_required_upto(o: OperatorView, n: nat)
    requires
        n <= usize::MAX,
    ensures
        one_per_variable(required_upto(o, n)),
        forall|f: Fact| #[trigger] required_upto(o, n).contains(f) <==> f.variable < n && required_value(o, f.variable) == Some(f.value),
    decreases n,
{
    if n > 0 {
        lemma_required_upto(o, (n - 1) as nat);
        let before = required_upto(o, (n - 1) as nat);
        let all = required_upto(o, n);
        let m = before.len() as int;
        assert forall|i: int, j: int| 0 <= i < j < all.len() implies #[trigger] all[i].variable < #[trigger] all[j].variable by {
            if j == m {
                assert(before.contains(before[i]));
            }
        }
        assert forall|f: Fact| #[trigger] all.contains(f) <==> f.variable < n && required_value(o, f.variable) == Some(f.value) by {
            if all.contains(f) {
                let i = choose|i: int| 0 <= i < all.len() && all[i] == f;
                if i < m {
                    assert(before[i] == f);
                    assert(before.contains(f));
                }
            }
            if before.contains(f) {
                let i = choose|i: int| 0 <= i < m && before[i] == f;
                assert(all[i] == f);
            }
            if f.variable == n - 1 && required_value(o, f.variable) == Some(f.value) {
                assert(all[m] == f);
            }
        }
    }
}

/// Every operator of a task has an applicability condition.
pub proof fn operators_have_preconditions(variables: Seq<VariableView>, o: OperatorView)
    requires
        operator_in(variables, o),
        variables.len() <= usize::MAX,
    ensures
        exists|facts: Seq<Fact>| is_precondition(o, facts),
{
    let facts = required_upto(o, variables.len());
    lemma_required_upto(o, variables.len());
    assert forall|f: Fact| #[trigger] facts.contains(f) <==> required_value(o, f.variable) == Some(f.value) by {
        lemma_last_pre_in(variables, o.effects, f.variable);
        lemma_last_value_in(variables, o.prevail, f.variable);
    }
    assert(is_precondition(o, facts));
}

proof fn lemma_last_pre_in(variables: Seq<VariableView>, effects: Seq<EffectView>, variable: usize)
    requires
        forall|i: int| 0 <= i < effects.len() ==> effect_in(variables, #[trigger] effects[i]),
    ensures
        last_pre(effects, variable) matches Some(v) ==> fact_in(variables, Fact { variable, value: v }),
    decreases effects.len(),
{
    if effects.len() > 0 {
        assert(effect_in(variables, effects[effects.len() - 1]));
        assert forall|i: int| 0 <= i < effects.drop_last().len() implies effect_in(variables, #[trigger] effects.drop_last()[i]) by {
            assert(effects.drop_last()[i] == effects[i]);
        }
        lemma_last_pre_in(variables, effects.drop_last(), variable);
    }
}

proof fn lemma_last_value_in(variables: Seq<VariableView>, facts: Seq<Fact>, variable: usize)
    requires
        facts_in(variables, facts),
    ensures
        last_value(facts, variable) matches Some(v) ==> fact_in(variables, Fact { variable, value: v }),
    decreases facts.len(),
{
    if facts.len() > 0 {
        assert(fact_in(variables, facts[facts.len() - 1]));
        assert forall|i: int| 0 <= i < facts.drop_last().len() implies fact_in(variables, #[trigger] facts.drop_last()[i]) by {
            assert(facts.drop_last()[i] == facts[i]);
        }
        lemma_last_value_in(variables, facts.drop_last(), variable);
    }
}

// ---------------------------------------------------------------------------
// States and the axiom closure
// ---------------------------------------------------------------------------

pub open spec fn holds(state: Seq<usize>, fact: Fact) -> bool {
    state[fact.variable as int] == fact.value
}

pub open spec fn all_hold(state: Seq<usize>, facts: Seq<Fact>) -> bool {
    forall|i: int| 0 <= i < facts.len() ==> holds(state, #[trigger] facts[i])
}

/// Whether all the facts hold in the state.
pub fn facts_hold(state: &Vec<usize>, facts: &Vec<Fact>) -> (res: bool)
    requires
        forall|i: int| 0 <= i < facts@.len() ==> (#[trigger] facts@[i]).variable < state@.len(),
    ensures
        res == all_hold(state@, facts@),
{
    let mut i: usize = 0;
    while i < facts.len()
        invariant
            i <= facts@.len(),
            forall|i: int| 0 <= i < facts@.len() ==> (#[trigger] facts@[i]).variable < state@.len(),
            forall|k: int| 0 <= k < i ==> holds(state@, #[trigger] facts@[k]),
        decreases facts@.len() - i,
    {
        if state[facts[i].variable] != facts[i].value {
            assert(!holds(state@, facts@[i as int]));
            return false;
        }
        i = i + 1;
    }
    true
}

impl TaskView {
    /// Some rule assigns the variable.
    pub open spec fn derived(self, variable: int) -> bool {
        exists|i: int| 0 <= i < self.axioms.len() && (#[trigger] self.axioms[i]).variable == variable
    }

    /// The last value of the variable.
    pub open spec fn default_of(self, variable: int) -> usize {
        (self.variables[variable].values.len() - 1) as usize
    }

    /// The state with every derived variable back at its default value.
    pub open spec fn reset(self, state: Seq<usize>) -> Seq<usize> {
        Seq::new(
            state.len(),
            |v: int|
                if self.derived(v) {
                    self.default_of(v)
                } else {
                    state[v]
                },
        )
    }

    /// The rule changes the state.
    pub open spec fn fires(rule: AxiomView, state: Seq<usize>) -> bool {
        &&& state[rule.variable as int] == rule.pre
        &&& all_hold(state, rule.conditions)
        &&& rule.pre != rule.post
    }

    pub open spec fn apply_rule(rule: AxiomView, state: Seq<usize>) -> Seq<usize> {
        if Self::fires(rule, state) {
            state.update(rule.variable as int, rule.post)
        } else {
            state
        }
    }

    /// The state after the first `n` rules have been tried once, in order.
    pub open spec fn pass(self, state: Seq<usize>, n: nat) -> Seq<usize>
        decreases n,
    {
        if n == 0 {
            state
        } else {
            Self::apply_rule(self.axioms[n - 1], self.pass(state, (n - 1) as nat))
        }
    }

    /// The state after `k` passes over all the rules.
    pub open spec fn passes(self, state: Seq<usize>, k: nat) -> Seq<usize>
        decreases k,
    {
        if k == 0 {
            state
        } else {
            self.pass(self.passes(state, (k - 1) as nat), self.axioms.len())
        }
    }

    /// No rule changes the state.
    pub open spec fn quiet(self, state: Seq<usize>) -> bool {
        forall|i: int| 0 <= i < self.axioms.len() ==> !Self::fires(#[trigger] self.axioms[i], state)
    }

    /// Some number of passes from the reset state leads to a state that no rule changes.
    pub open spec fn converges(self, state: Seq<usize>) -> bool {
        exists|k: nat| self.quiet(#[trigger] self.passes(self.reset(state), k))
    }

    /// The grounded axiom closure of the state: derived variables are reset, and
    /// the rules are applied until none changes the state.
    pub open spec fn closure(self, state: Seq<usize>) -> Seq<usize> {
        self.passes(self.reset(state), choose|k: nat| self.quiet(#[trigger] self.passes(self.reset(state), k)))
    }

    /// The closure exists for every state.
    pub open spec fn axioms_converge(self) -> bool {
        forall|state: Seq<usize>| state_in(self.variables, state) ==> #[trigger] self.converges(state)
    }
}

/// A pass over a quiet state changes nothing.
proof fn lemma_quiet_pass(t: TaskView, state: Seq<usize>, n: nat)
    requires
        t.quiet(state),
        n <= t.axioms.len(),
    ensures
        t.pass(state, n) == state,
    decreases n,
{
    if n > 0 {
        lemma_quiet_pass(t, state, (n - 1) as nat);
        assert(!TaskView::fires(t.axioms[n - 1], state));
    }
}

proof fn lemma_quiet_passes(t: TaskView, state: Seq<usize>, k: nat, m: nat)
    requires
        t.quiet(t.passes(state, k)),
        k <= m,
    ensures
        t.passes(state, m) == t.passes(state, k),
    decreases m - k,
{
    if k < m {
        lemma_quiet_passes(t, state, k, (m - 1) as nat);
        lemma_quiet_pass(t, t.passes(state, k), t.axioms.len());
    }
}

/// Whatever number of passes reaches a quiet state, it is the closure.
pub proof fn lemma_closure(t: TaskView, state: Seq<usize>, k: nat)
    requires
        t.quiet(t.passes(t.reset(state), k)),
    ensures
        t.converges(state),
        t.closure(state) == t.passes(t.reset(state), k),
{
    let m = choose|m: nat| t.quiet(#[trigger] t.passes(t.reset(state), m));
    if k <= m {
        lemma_quiet_passes(t, t.reset(state), k, m);
    } else {
        lemma_quiet_passes(t, t.reset(state), m, k);
    }
}

pub proof fn lemma_pass_in(t: TaskView, state: Seq<usize>, n: nat)
    requires
        t.wf(),
        state_in(t.variables, state),
        n <= t.axioms.len(),
    ensures
        state_in(t.variables, t.pass(state, n)),
    decreases n,
{
    if n > 0 {
        lemma_pass_in(t, state, (n - 1) as nat);
        assert(axiom_in(t.variables, t.axioms[n - 1]));
    }
}

pub proof fn lemma_passes_in(t: TaskView, state: Seq<usize>, k: nat)
    requires
        t.wf(),
        state_in(t.variables, state),
    ensures
        state_in(t.variables, t.passes(state, k)),
    decreases k,
{
    if k > 0 {
        lemma_passes_in(t, state, (k - 1) as nat);
        lemma_pass_in(t, t.passes(state, (k - 1) as nat), t.axioms.len());
    }
}

pub(crate) proof fn lemma_reset_in(t: TaskView, state: Seq<usize>)
    requires
        t.wf(),
        state_in(t.variables, state),
    ensures
        state_in(t.variables, t.reset(state)),
{
    assert forall|v: int| 0 <= v < t.reset(state).len() implies #[trigger] t.reset(state)[v] < t.variables[v].values.len() by {
        assert(state[v] < t.variables[v].values.len());
    }
}

/// The closure of a state is a state, and no rule changes it.
pub proof fn lemma_closure_in(t: TaskView, state: Seq<usize>)
    requires
        t.wf(),
        state_in(t.variables, state),
        t.converges(state),
    ensures
        state_in(t.variables, t.closure(state)),
        t.quiet(t.closure(state)),
{
    let k = choose|k: nat| t.quiet(#[trigger] t.passes(t.reset(state), k));
    lemma_reset_in(t, state);
    lemma_passes_in(t, t.reset(state), k);
}

/// The sum of the ranks of a state's values.
pub open spec fn rank_sum(rank: spec_fn(int, usize) -> nat, state: Seq<usize>) -> nat
    decreases state.len(),
{
    if state.len() == 0 {
        0
    } else {
        rank_sum(rank, state.drop_last()) + rank(state.len() - 1, state.last())
    }
}

proof fn lemma_rank_sum_update(rank: spec_fn(int, usize) -> nat, state: Seq<usize>, v: int, value: usize)
    requires
        0 <= v < state.len(),
    ensures
        rank_sum(rank, state.update(v, value)) + rank(v, state[v]) == rank_sum(rank, state) + rank(v, value),
    decreases state.len(),
{
    if v == state.len() - 1 {
        assert(state.update(v, value).drop_last() =~= state.drop_last());
    } else {
        assert(state.update(v, value).drop_last() =~= state.drop_last().update(v, value));
        lemma_rank_sum_update(rank, state.drop_last(), v, value);
    }
}

/// The rules step down in rank: none of them can be undone by others.
pub open spec fn ranked(t: TaskView, rank: spec_fn(int, usize) -> nat) -> bool {
    forall|i: int| 0 <= i < t.axioms.len() && (#[trigger] t.axioms[i]).pre != t.axioms[i].post ==> rank(
        t.axioms[i].variable as int,
        t.axioms[i].post,
    ) < rank(t.axioms[i].variable as int, t.axioms[i].pre)
}

proof fn lemma_pass_rank(t: TaskView, rank: spec_fn(int, usize) -> nat, state: Seq<usize>, n: nat)
    requires
        t.wf(),
        ranked(t, rank),
        state_in(t.variables, state),
        n <= t.axioms.len(),
    ensures
        rank_sum(rank, t.pass(state, n)) <= rank_sum(rank, state),
        (forall|i: int| 0 <= i < n ==> !TaskView::fires(#[trigger] t.axioms[i], state)) || rank_sum(rank, t.pass(state, n))
            < rank_sum(rank, state),
        (forall|i: int| 0 <= i < n ==> !TaskView::fires(#[trigger] t.axioms[i], state)) ==> t.pass(state, n) == state,
    decreases n,
{
    if n > 0 {
        lemma_pass_rank(t, rank, state, (n - 1) as nat);
        lemma_pass_in(t, state, (n - 1) as nat);
        let mid = t.pass(state, (n - 1) as nat);
        let rule = t.axioms[n - 1];
        assert(axiom_in(t.variables, rule));
        if TaskView::fires(rule, mid) {
            lemma_rank_sum_update(rank, mid, rule.variable as int, rule.post);
        }
    }
}

proof fn lemma_ranked_quiet(t: TaskView, rank: spec_fn(int, usize) -> nat, start: Seq<usize>, k: nat) -> (m: nat)
    requires
        t.wf(),
        ranked(t, rank),
        state_in(t.variables, start),
    ensures
        t.quiet(t.passes(start, m)),
    decreases rank_sum(rank, t.passes(start, k)),
{
    let state = t.passes(start, k);
    lemma_passes_in(t, start, k);
    lemma_pass_rank(t, rank, state, t.axioms.len());
    if t.quiet(state) {
        k
    } else {
        assert(t.passes(start, k + 1) == t.pass(state, t.axioms.len()));
        lemma_ranked_quiet(t, rank, start, k + 1)
    }
}

/// Rules that step down in some rank of their variables' values always
/// converge; so do in particular the rules that Fast Downward emits, which lead
/// from a variable's default value to another one.
pub proof fn ranked_axioms_converge(t: TaskView, rank: spec_fn(int, usize) -> nat)
    requires
        t.wf(),
        ranked(t, rank),
    ensures
        t.axioms_converge(),
{
    assert forall|state: Seq<usize>| state_in(t.variables, state) implies #[trigger] t.converges(state) by {
        lemma_reset_in(t, state);
        let m = lemma_ranked_quiet(t, rank, t.reset(state), 0);
        lemma_closure(t, state, m);
    }
}

/// Rules that lead from the default value of a variable to another value converge.
pub proof fn default_axioms_converge(t: TaskView)
    requires
        t.wf(),
        forall|i: int| 0 <= i < t.axioms.len() ==> (#[trigger] t.axioms[i]).pre == t.default_of(t.axioms[i].variable as int),
    ensures
        t.axioms_converge(),
{
    let rank = |v: int, value: usize|
        if value == t.default_of(v) {
            1nat
        } else {
            0nat
        };
    ranked_axioms_converge(t, rank);
}

/// The closure does not depend on the derived values of the state, and closing
/// twice is closing once.
pub proof fn closure_idempotent(t: TaskView, state: Seq<usize>)
    requires
        t.wf(),
        state_in(t.variables, state),
        t.converges(state),
    ensures
        t.closure(t.closure(state)) == t.closure(state),
{
    let k = choose|k: nat| t.quiet(#[trigger] t.passes(t.reset(state), k));
    lemma_reset_in(t, state);
    lemma_passes_keep(t, t.reset(state), k);
    assert(t.reset(t.closure(state)) =~= t.reset(state)) by {
        lemma_passes_in(t, t.reset(state), k);
        assert forall|v: int| 0 <= v < state.len() implies t.reset(t.closure(state))[v] == t.reset(state)[v] by {
            if !t.derived(v) {
                assert(t.passes(t.reset(state), k)[v] == t.reset(state)[v]);
            }
        }
    }
}

proof fn lemma_pass_keep(t: TaskView, state: Seq<usize>, n: nat)
    requires
        t.wf(),
        state_in(t.variables, state),
        n <= t.axioms.len(),
    ensures
        forall|v: int| 0 <= v < state.len() && !t.derived(v) ==> #[trigger] t.pass(state, n)[v] == state[v],
    decreases n,
{
    if n > 0 {
        lemma_pass_keep(t, state, (n - 1) as nat);
        lemma_pass_in(t, state, (n - 1) as nat);
        assert(axiom_in(t.variables, t.axioms[n - 1]));
        let mid = t.pass(state, (n - 1) as nat);
        assert forall|v: int| 0 <= v < state.len() && !t.derived(v) implies #[trigger] t.pass(state, n)[v] == state[v] by {
            assert(mid[v] == state[v]);
            assert(t.axioms[n - 1].variable != v);
        }
    }
}

/// The rules leave the variables that are not derived alone.
pub(crate) proof fn lemma_passes_keep(t: TaskView, state: Seq<usize>, k: nat)
    requires
        t.wf(),
        state_in(t.variables, state),
    ensures
        forall|v: int| 0 <= v < state.len() && !t.derived(v) ==> #[trigger] t.passes(state, k)[v] == state[v],
    decreases k,
{
    if k > 0 {
        lemma_passes_keep(t, state, (k - 1) as nat);
        lemma_passes_in(t, state, (k - 1) as nat);
        lemma_pass_keep(t, t.passes(state, (k - 1) as nat), t.axioms.len());
        let mid = t.passes(state, (k - 1) as nat);
        assert forall|v: int| 0 <= v < state.len() && !t.derived(v) implies #[trigger] t.passes(state, k)[v] == state[v] by {
            assert(mid[v] == state[v]);
            assert(t.pass(mid, t.axioms.len())[v] == mid[v]);
        }
    }
}

pub open spec fn count_multi(variables: Seq<VariableView>) -> nat
    decreases variables.len(),
{
    if variables.len() == 0 {
        0
    } else {
        count_multi(variables.drop_last()) + (if variables.last().values.len() > 2 {
            1nat
        } else {
            0nat
        })
    }
}

pub open spec fn count_facts(variables: Seq<VariableView>) -> nat
    decreases variables.len(),
{
    if variables.len() == 0 {
        0
    } else {
        count_facts(variables.drop_last()) + variables.last().values.len()
    }
}

proof fn lemma_count_facts_prefix(variables: Seq<VariableView>, k: int)
    requires
        0 <= k <= variables.len(),
    ensures
        count_facts(variables.take(k)) <= count_facts(variables),
    decreases variables.len(),
{
    if k < variables.len() {
        assert(variables.drop_last().take(k) =~= variables.take(k));
        lemma_count_facts_prefix(variables.drop_last(), k);
    } else {
        assert(variables.take(k) =~= variables);
    }
}

impl Task {
    /// The printable name of a fact.
    pub fn fact_name(&self, fact: Fact) -> (res: &str)
        requires
            fact_in(self@.variables, fact),
        ensures
            res@ == self@.variables[fact.variable as int].values[fact.value as int],
    {
        assert(self@.variables[fact.variable as int] == self.variables@[fact.variable as int]@);
        self.variables[fact.variable].values[fact.value].as_str()
    }

    /// The number of variables with more than two values.
    pub fn multi_valued_variables(&self) -> (n: usize)
        ensures
            n == count_multi(self@.variables),
    {
        let ghost vs = self@.variables;
        let mut n: usize = 0;
        let mut i: usize = 0;
        while i < self.variables.len()
            invariant
                i <= self.variables@.len(),
                vs == self@.variables,
                n <= i,
                n == count_multi(vs.take(i as int)),
            decreases self.variables@.len() - i,
        {
            assert(vs[i as int] == self.variables@[i as int]@);
            if self.variables[i].values.len() > 2 {
                n = n + 1;
            }
            i = i + 1;
            assert(vs.take(i as int).drop_last() =~= vs.take(i - 1));
        }
        assert(vs.take(i as int) =~= vs);
        n
    }

    /// The number of facts: the sizes of all domains together.
    pub fn num_facts(&self) -> (n: usize)
        requires
            count_facts(self@.variables) <= usize::MAX,
        ensures
            n == count_facts(self@.variables),
    {
        let ghost vs = self@.variables;
        let mut n: usize = 0;
        let mut i: usize = 0;
        while i < self.variables.len()
            invariant
                i <= self.variables@.len(),
                vs == self@.variables,
                n == count_facts(vs.take(i as int)),
                count_facts(vs) <= usize::MAX,
            decreases self.variables@.len() - i,
        {
            assert(vs[i as int] == self.variables@[i as int]@);
            assert(vs.take(i + 1).drop_last() =~= vs.take(i as int));
            proof {
                lemma_count_facts_prefix(vs, i + 1);
            }
            n = n + self.variables[i].values.len();
            i = i + 1;
        }
        assert(vs.take(i as int) =~= vs);
        n
    }

    /// Whether some rule assigns the variable.
    pub fn is_derived_variable(&self, variable: usize) -> (res: bool)
        ensures
            res == self@.derived(variable as int),
    {
        let mut i: usize = 0;
        while i < self.axioms.len()
            invariant
                i <= self.axioms@.len(),
                forall|k: int| 0 <= k < i ==> (#[trigger] self.axioms@[k]).variable != variable,
            decreases self.axioms@.len() - i,
        {
            if self.axioms[i].variable == variable {
                assert(self@.axioms[i as int] == self.axioms@[i as int]@);
                return true;
            }
            i = i + 1;
        }
        proof {
            if self@.derived(variable as int) {
                let k = choose|k: int| 0 <= k < self@.axioms.len() && (#[trigger] self@.axioms[k]).variable == variable;
                assert(self@.axioms[k] == self.axioms@[k]@);
                assert(self.axioms@[k].variable == variable);
            }
        }
        false
    }

    /// The default (last) value of a variable.
    pub fn default_value(&self, variable: usize) -> (res: usize)
        requires
            variable < self@.variables.len(),
            self@.variables[variable as int].values.len() > 0,
        ensures
            res == self@.default_of(variable as int),
    {
        assert(self@.variables[variable as int] == self.variables@[variable as int]@);
        self.variables[variable].values.len() - 1
    }

    /// Whether every rule leads from the default value of its variable to another; the
    /// rules then converge from every state.
    pub fn settles(&self) -> (res: bool)
        requires
            self.wf(),
        ensures
            res == forall|i: int|
                0 <= i < self@.axioms.len() ==> (#[trigger] self@.axioms[i]).pre == self@.default_of(self@.axioms[i].variable as int),
            res ==> self@.axioms_converge(),
    {
        let ghost t = self@;
        let mut i: usize = 0;
        while i < self.axioms.len()
            invariant
                self.wf(),
                t == self@,
                t.axioms == axiom_views(self.axioms@),
                i <= self.axioms@.len(),
                forall|k: int| 0 <= k < i ==> (#[trigger] t.axioms[k]).pre == t.default_of(t.axioms[k].variable as int),
            decreases self.axioms@.len() - i,
        {
            let a = &self.axioms[i];
            assert(t.axioms[i as int] == a@);
            if a.pre != self.default_value(a.variable) {
                return false;
            }
            i = i + 1;
        }
        proof {
            default_axioms_converge(t);
        }
        true
    }

    /// Resets derived variables and computes the grounded axiom closure.
    pub fn close_axioms(&self, state: &mut Vec<usize>)
        requires
            self.wf(),
            state_in(self@.variables, old(state)@),
            self@.converges(old(state)@),
        ensures
            final(state)@ == self@.closure(old(state)@),
            state_in(self@.variables, final(state)@),
    {
        let ghost t = self@;
        let ghost start = state@;
        let mut v: usize = 0;
        while v < state.len()
            invariant
                t == self@,
                t.wf(),
                state_in(t.variables, start),
                v <= state@.len(),
                state@.len() == start.len(),
                forall|k: int| 0 <= k < v ==> state@[k] == t.reset(start)[k],
                forall|k: int| v <= k < start.len() ==> state@[k] == start[k],
            decreases state@.len() - v,
        {
            if self.is_derived_variable(v) {
                assert(start[v as int] < t.variables[v as int].values.len());
                state.set(v, self.default_value(v));
            }
            v = v + 1;
        }
        assert(state@ =~= t.reset(start));
        let ghost mut k: nat = 0;
        let ghost last = choose|m: nat| t.quiet(#[trigger] t.passes(t.reset(start), m));
        proof {
            lemma_reset_in(t, start);
        }
        loop
            invariant
                t == self@,
                t.wf(),
                state_in(t.variables, t.reset(start)),
                t.quiet(t.passes(t.reset(start), last)),
                k <= last,
                state@ == t.passes(t.reset(start), k),
            ensures
                t.quiet(state@),
                state@ == t.passes(t.reset(start), k),
            decreases last - k,
        {
            proof {
                lemma_passes_in(t, t.reset(start), k);
            }
            let ghost before = state@;
            let mut changed = false;
            let mut i: usize = 0;
            while i < self.axioms.len()
                invariant
                    t == self@,
                    t.wf(),
                    i <= self.axioms@.len(),
                    state_in(t.variables, before),
                    state@ == t.pass(before, i as nat),
                    !changed ==> state@ == before && forall|j: int| 0 <= j < i ==> !TaskView::fires(#[trigger] t.axioms[j], before),
                    changed ==> exists|j: int| 0 <= j < i && TaskView::fires(#[trigger] t.axioms[j], before),
                decreases self.axioms@.len() - i,
            {
                let rule = &self.axioms[i];
                assert(t.axioms[i as int] == rule@);
                assert(axiom_in(t.variables, t.axioms[i as int]));
                proof {
                    lemma_pass_in(t, before, i as nat);
                    assert forall|j: int| 0 <= j < rule.conditions@.len() implies (#[trigger] rule.conditions@[j]).variable
                        < state@.len() by {
                        assert(fact_in(t.variables, t.axioms[i as int].conditions[j]));
                    }
                }
                if state[rule.variable] == rule.pre && facts_hold(state, &rule.conditions) && state[rule.variable] != rule.post {
                    state.set(rule.variable, rule.post);
                    changed = true;
                }
                i = i + 1;
            }
            if !changed {
                break;
            }
            proof {
                if k == last {
                    assert(t.quiet(before));
                }
                assert(t.passes(t.reset(start), k + 1) == t.pass(before, t.axioms.len()));
                k = k + 1;
            }
        }
        proof {
            lemma_closure(t, start, k);
            lemma_closure_in(t, start);
        }
    }
}

} // verus!
