//! Finite-domain refinements: the children that resolve a flaw, and the choice
//! of the flaw.
use vstd::prelude::*;

use crate::fdr::{effect_in, fact_in, facts_in, operator_in, Fact, TaskView};
use crate::fdr_estimates::{
    achievers_of, achieves, cost_values, has_effect, lemma_achievers, plan_in, work_values, Achiever, Planner,
};
use crate::fdr_lmcut::number;
use crate::fdr_plan::{clobbers, effect_clobbers, OpenCondition, PartialPlan, PlanView, Step, Threat};
use crate::heuristics::{complete, uncapped, FlawKind, FlawSelectionOrder, OrderType, SelectionCriterion};
use crate::params::ActionCost;
use crate::plan::{GOAL_ID, INIT_ID};
use crate::supports::{base_clauses, clauses, supports_are_base_facts, supports_of};

verus! {

pub open spec fn plan_views(v: Seq<PartialPlan>) -> Seq<PlanView> {
    v.map_values(|p: PartialPlan| p@)
}

/// The list with the plan, if there is one.
pub open spec fn with_plan(list: Seq<PlanView>, plan: Option<PlanView>) -> Seq<PlanView> {
    match plan {
        Some(p) => list.push(p),
        None => list,
    }
}

/// The open condition at `at` supported by new steps for the first `n` achievers.
pub open spec fn new_step_children(t: TaskView, cost: ActionCost, p: PlanView, at: int, achievers: Seq<Achiever>, n: nat) -> Seq<PlanView>
    decreases n,
{
    if n == 0 {
        Seq::empty()
    } else {
        with_plan(
            new_step_children(t, cost, p, at, achievers, (n - 1) as nat),
            p.stepped(t, cost, at, achievers[n - 1].operator, achievers[n - 1].effect),
        )
    }
}

/// The open condition at `at` supported by the step's own effects among the
/// first `n` achievers, after `list`.
pub open spec fn step_reuse(t: TaskView, p: PlanView, at: int, step: Step, achievers: Seq<Achiever>, n: nat, list: Seq<PlanView>) -> Seq<
    PlanView,
>
    decreases n,
{
    if n == 0 {
        list
    } else {
        let before = step_reuse(t, p, at, step, achievers, (n - 1) as nat, list);
        let a = achievers[n - 1];
        if a.operator == step.operator {
            with_plan(
                before,
                p.supported(at, step.id, Some(a.effect), t.operators[a.operator as int].effects[a.effect as int].conditions),
            )
        } else {
            before
        }
    }
}

/// The open condition at `at` supported by the last `n` steps, newest first,
/// after `list`.
pub open spec fn reuse_children(t: TaskView, p: PlanView, at: int, achievers: Seq<Achiever>, n: nat, list: Seq<PlanView>) -> Seq<PlanView>
    decreases n,
{
    if n == 0 {
        list
    } else {
        let before = reuse_children(t, p, at, achievers, (n - 1) as nat, list);
        let step = p.steps[p.steps.len() - n];
        if p.may_precede(step.id as int, p.opens[at].consumer as int) {
            step_reuse(t, p, at, step, achievers, achievers.len(), before)
        } else {
            before
        }
    }
}

/// The children that resolve the open condition at `at`. A derived condition is
/// replaced by one of its supports. Otherwise new steps come before reuse, and
/// the initial state comes last.
pub open spec fn open_children(t: TaskView, cost: ActionCost, p: PlanView, at: int) -> Seq<PlanView> {
    let open = p.opens[at];
    if t.derived(open.condition.variable as int) {
        supports_of(t, open.condition).map_values(|s: Seq<Fact>| p.expanded_to(at, s))
    } else {
        let achievers = achievers_of(t, open.condition);
        let fresh = new_step_children(t, cost, p, at, achievers, achievers.len());
        let reused = reuse_children(t, p, at, achievers, p.steps.len(), fresh);
        if t.initial[open.condition.variable as int] == open.condition.value {
            with_plan(reused, p.supported(at, INIT_ID, None, Seq::empty()))
        } else {
            reused
        }
    }
}

/// The step committed to each of the first `n` values of the variable but one, after `list`.
pub open spec fn value_confrontations(p: PlanView, step: usize, fact: Fact, n: nat, list: Seq<PlanView>) -> Seq<PlanView>
    decreases n,
{
    if n == 0 {
        list
    } else {
        let before = value_confrontations(p, step, fact, (n - 1) as nat, list);
        if n - 1 == fact.value {
            before
        } else {
            before.push(p.confronted(step, Fact { variable: fact.variable, value: (n - 1) as usize }))
        }
    }
}

/// The step committed against each of the first `n` conditions.
pub open spec fn confrontations(t: TaskView, p: PlanView, step: usize, conditions: Seq<Fact>, n: nat) -> Seq<PlanView>
    decreases n,
{
    if n == 0 {
        Seq::empty()
    } else {
        value_confrontations(
            p,
            step,
            conditions[n - 1],
            t.variables[conditions[n - 1].variable as int].values.len(),
            confrontations(t, p, step, conditions, (n - 1) as nat),
        )
    }
}

/// The children that resolve the threat: confrontation of each condition of the
/// effect, then the step after the consumer, then the step before the producer.
pub open spec fn threat_children(t: TaskView, p: PlanView, threat: Threat) -> Seq<PlanView> {
    let link = p.links[threat.link as int];
    let conditions = p.effects(t, threat.step as int)[threat.effect as int].conditions;
    let confronted = confrontations(t, p, threat.step, conditions, conditions.len());
    let promoted = if link.consumer == GOAL_ID {
        confronted
    } else {
        with_plan(confronted, p.ordered_with(link.consumer as int, threat.step as int))
    };
    if link.producer == INIT_ID {
        promoted
    } else {
        with_plan(promoted, p.ordered_with(threat.step as int, link.producer as int))
    }
}

proof fn lemma_views_push(list: Seq<PartialPlan>, p: PartialPlan)
    ensures
        plan_views(list.push(p)) == plan_views(list).push(p@),
{
    assert(plan_views(list.push(p)) =~= plan_views(list).push(p@));
}

pub open spec fn all_wf(t: TaskView, plans: Seq<PartialPlan>) -> bool {
    forall|i: int| 0 <= i < plans.len() ==> (#[trigger] plans[i]).wf(t)
}

/// Adds the plan, if there is one.
fn push_plan(list: &mut Vec<PartialPlan>, plan: Option<PartialPlan>, Ghost(t): Ghost<TaskView>)
    requires
        all_wf(t, old(list)@),
        plan matches Some(p) ==> p.wf(t),
    ensures
        all_wf(t, final(list)@),
        plan_views(final(list)@) == with_plan(
            plan_views(old(list)@),
            match plan {
                Some(p) => Some(p@),
                None => None,
            },
        ),
{
    if let Some(p) = plan {
        proof {
            lemma_views_push(list@, p);
        }
        list.push(p);
    }
}

impl<'a> Planner<'a> {
    /// The children that resolve the open condition at `at`.
    pub fn resolve_open(&self, plan: &PartialPlan, at: usize) -> (res: Vec<PartialPlan>)
        requires
            self.wf(),
            plan.wf(self.t()),
            at < plan@.opens.len(),
        ensures
            all_wf(self.t(), res@),
            plan_views(res@) == open_children(self.t(), self.model(), plan@, at as int),
    {
        let ghost t = self.t();
        let ghost p = plan@;
        let task = self.task();
        proof {
            self.lemma_wf();
            lemma_achievers(t, p.opens[at as int].condition);
        }
        let open = plan.open_conditions[at];
        assert(p.open_in(t, p.opens[at as int]));
        let mut children: Vec<PartialPlan> = Vec::new();
        if let Some(supports) = self.supports(open.condition) {
            let ghost sv = clauses(supports@);
            let ghost all = sv.map_values(|s: Seq<Fact>| p.expanded_to(at as int, s));
            proof {
                supports_are_base_facts(task, open.condition);
                assert(plan_views(children@) =~= all.take(0));
            }
            let mut k: usize = 0;
            while k < supports.len()
                invariant
                    t == self.t(),
                    self.wf(),
                    task@ == t,
                    t.wf(),
                    p == plan@,
                    plan.wf(t),
                    at < p.opens.len(),
                    sv == clauses(supports@),
                    base_clauses(t, sv),
                    all == sv.map_values(|s: Seq<Fact>| p.expanded_to(at as int, s)),
                    k <= supports@.len(),
                    all_wf(t, children@),
                    plan_views(children@) == all.take(k as int),
                decreases supports@.len() - k,
            {
                let support = &supports[k];
                assert(sv[k as int] == support@);
                assert(crate::supports::base_clause(t, sv[k as int]));
                assert(facts_in(t.variables, support@)) by {
                    assert forall|j: int| 0 <= j < support@.len() implies fact_in(t.variables, #[trigger] support@[j]) by {
                        assert(fact_in(t.variables, sv[k as int][j]));
                    }
                }
                let child = plan.expand(task, at, support);
                proof {
                    lemma_views_push(children@, child);
                    assert(all.take(k + 1) =~= all.take(k as int).push(all[k as int]));
                }
                children.push(child);
                k = k + 1;
            }
            assert(all.take(k as int) =~= all);
            return children;
        }
        let achievers = self.achievers(open.condition);
        let ghost av = achievers@;
        let mut k: usize = 0;
        assert(plan_views(children@) =~= new_step_children(t, self.model(), p, at as int, av, 0));
        // New steps come before reuse: search prefers the newest plan among
        // equal ranks, so this order makes reuse win over inserting the same
        // operator again.
        while k < achievers.len()
            invariant
                t == self.t(),
                self.wf(),
                task@ == t,
                t.wf(),
                p == plan@,
                plan.wf(t),
                at < p.opens.len(),
                open == p.opens[at as int],
                av == achievers@,
                forall|i: int| 0 <= i < av.len() ==> achieves(t, open.condition, #[trigger] av[i]),
                k <= av.len(),
                all_wf(t, children@),
                plan_views(children@) == new_step_children(t, self.model(), p, at as int, av, k as nat),
            decreases av.len() - k,
        {
            let a = achievers[k];
            assert(achieves(t, open.condition, av[k as int]));
            let child = plan.add_step(task, self.action_cost(), at, a.operator, a.effect, self.preconditions(a.operator));
            push_plan(&mut children, child, Ghost(t));
            k = k + 1;
        }
        let ghost fresh = plan_views(children@);
        let mut n: usize = 0;
        while n < plan.steps.len()
            invariant
                t == self.t(),
                self.wf(),
                task@ == t,
                t.wf(),
                p == plan@,
                plan.wf(t),
                at < p.opens.len(),
                open == p.opens[at as int],
                p.open_in(t, open),
                av == achievers@,
                forall|i: int| 0 <= i < av.len() ==> achieves(t, open.condition, #[trigger] av[i]),
                n <= p.steps.len(),
                all_wf(t, children@),
                plan_views(children@) == reuse_children(t, p, at as int, av, n as nat, fresh),
            decreases p.steps.len() - n,
        {
            let index: usize = plan.steps.len() - 1 - n;
            let step = plan.steps[index];
            assert(p.steps[index as int].id == index + 1);
            if plan.may_precede(step.id, open.consumer) {
                let ghost before = plan_views(children@);
                let mut k: usize = 0;
                while k < achievers.len()
                    invariant
                        t == self.t(),
                        self.wf(),
                        task@ == t,
                        t.wf(),
                        p == plan@,
                        plan.wf(t),
                        at < p.opens.len(),
                        open == p.opens[at as int],
                        av == achievers@,
                        forall|i: int| 0 <= i < av.len() ==> achieves(t, open.condition, #[trigger] av[i]),
                        0 <= index < p.steps.len(),
                        step == p.steps[index as int],
                        step.id == index + 1,
                        k <= av.len(),
                        all_wf(t, children@),
                        plan_views(children@) == step_reuse(t, p, at as int, step, av, k as nat, before),
                    decreases av.len() - k,
                {
                    let a = achievers[k];
                    assert(achieves(t, open.condition, av[k as int]));
                    if a.operator == step.operator {
                        let operator = &task.operators[a.operator];
                        assert(t.operators[a.operator as int] == operator@);
                        assert(operator_in(t.variables, t.operators[a.operator as int]));
                        let effect = &operator.effects[a.effect];
                        assert(operator@.effects[a.effect as int] == effect@);
                        assert(effect_in(t.variables, operator@.effects[a.effect as int]));
                        let child = plan.support(task, at, step.id, Some(a.effect), &effect.conditions);
                        push_plan(&mut children, child, Ghost(t));
                    }
                    k = k + 1;
                }
            }
            n = n + 1;
        }
        // The initial state is the oldest reusable producer and comes last.
        if task.initial[open.condition.variable] == open.condition.value {
            let none: Vec<Fact> = Vec::new();
            let child = plan.support(task, at, INIT_ID, None, &none);
            assert(none@ =~= Seq::<Fact>::empty());
            push_plan(&mut children, child, Ghost(t));
        }
        children
    }

    /// The children that resolve the threat.
    pub fn resolve_threat(&self, plan: &PartialPlan, threat: &Threat) -> (res: Vec<PartialPlan>)
        requires
            self.wf(),
            plan.wf(self.t()),
            plan@.threatens(self.t(), *threat),
        ensures
            all_wf(self.t(), res@),
            plan_views(res@) == threat_children(self.t(), plan@, *threat),
    {
        let ghost t = self.t();
        let ghost p = plan@;
        let task = self.task();
        proof {
            self.lemma_wf();
        }
        let link = plan.links[threat.link];
        assert(p.link_in(t, p.links[threat.link as int]));
        let step = plan.steps[threat.step - 1];
        assert(p.steps[threat.step - 1].operator < t.operators.len());
        let operator = &task.operators[step.operator];
        assert(t.operators[step.operator as int] == operator@);
        assert(operator_in(t.variables, t.operators[step.operator as int]));
        let effect = &operator.effects[threat.effect];
        assert(operator@.effects[threat.effect as int] == effect@);
        assert(effect_in(t.variables, operator@.effects[threat.effect as int]));
        let ghost conditions = effect.conditions@;
        let mut children: Vec<PartialPlan> = Vec::new();
        let mut k: usize = 0;
        assert(plan_views(children@) =~= confrontations(t, p, threat.step, conditions, 0));
        // Confrontation: the effect only clobbers the link when all of its
        // conditions hold, so the step is committed to another value of a
        // condition variable, one child for each.
        while k < effect.conditions.len()
            invariant
                t == self.t(),
                task@ == t,
                task.wf(),
                p == plan@,
                plan.wf(t),
                p.is_step(threat.step as int),
                conditions == effect.conditions@,
                facts_in(t.variables, conditions),
                k <= conditions.len(),
                all_wf(t, children@),
                plan_views(children@) == confrontations(t, p, threat.step, conditions, k as nat),
            decreases conditions.len() - k,
        {
            let fact = effect.conditions[k];
            assert(fact_in(t.variables, conditions[k as int]));
            assert(t.variables[fact.variable as int] == task.variables@[fact.variable as int]@);
            let size = task.variables[fact.variable].values.len();
            let ghost before = plan_views(children@);
            let mut w: usize = 0;
            while w < size
                invariant
                    t == self.t(),
                    task@ == t,
                    task.wf(),
                    p == plan@,
                    plan.wf(t),
                    p.is_step(threat.step as int),
                    fact_in(t.variables, fact),
                    size == t.variables[fact.variable as int].values.len(),
                    w <= size,
                    all_wf(t, children@),
                    plan_views(children@) == value_confrontations(p, threat.step, fact, w as nat, before),
                decreases size - w,
            {
                if w != fact.value {
                    let child = plan.confront(task, threat.step, Fact::new(fact.variable, w));
                    proof {
                        lemma_views_push(children@, child);
                    }
                    children.push(child);
                }
                w = w + 1;
            }
            k = k + 1;
        }
        // Promotion: the step comes after the consumer. No step can follow the
        // goal. Promotion comes first, so that the newest plan among equal ranks
        // is the demotion.
        if link.consumer != GOAL_ID {
            let child = plan.order(task, link.consumer, threat.step);
            push_plan(&mut children, child, Ghost(t));
        }
        // Demotion: the step comes before the producer. No step can precede the
        // initial state.
        if link.producer != INIT_ID {
            let child = plan.order(task, threat.step, link.producer);
            push_plan(&mut children, child, Ghost(t));
        }
        children
    }
}

// ---------------------------------------------------------------------------
// Flaw selection
// ---------------------------------------------------------------------------

/// A flaw of a plan: a threat, or an open condition by its index.
#[derive(Debug, Clone, Copy, PartialEq, Eq, Structural)]
pub enum SelectedFlaw {
    Threat(Threat),
    Open(usize),
}

/// A flaw that a criterion admits, with what the criteria order flaws by.
#[derive(Debug, Clone, Copy, PartialEq, Eq, Structural)]
pub struct FlawCandidate {
    pub flaw: SelectedFlaw,
    pub is_threat: bool,
    /// At most `i32::MAX`.
    pub refinements: i32,
    pub recency: usize,
    pub has_new: bool,
    pub has_reuse: bool,
    pub estimate: u128,
}

/// The flag is set rather than not, else the number is larger.
pub open spec fn set_or_later(a: bool, m: usize, b: bool, n: usize) -> bool {
    (a && !b) || (a == b && m > n)
}

/// Whether the order prefers `a` to `b`.
pub open spec fn prefers(order: OrderType, a: FlawCandidate, b: FlawCandidate) -> bool {
    match order {
        OrderType::Lifo => set_or_later(a.is_threat, a.recency, b.is_threat, b.recency),
        OrderType::Fifo => if a.is_threat != b.is_threat {
            !a.is_threat
        } else {
            a.recency < b.recency
        },
        OrderType::Random => a.recency > b.recency,
        OrderType::Lr => a.refinements < b.refinements || (a.refinements == b.refinements && set_or_later(
            a.is_threat,
            a.recency,
            b.is_threat,
            b.recency,
        )),
        OrderType::Mr => a.refinements > b.refinements || (a.refinements == b.refinements && set_or_later(
            a.is_threat,
            a.recency,
            b.is_threat,
            b.recency,
        )),
        OrderType::New => set_or_later(a.has_new, a.recency, b.has_new, b.recency),
        OrderType::Reuse => set_or_later(a.has_reuse, a.recency, b.has_reuse, b.recency),
        OrderType::Lc | OrderType::Lw => a.estimate < b.estimate || (a.estimate == b.estimate && a.recency > b.recency),
        OrderType::Mc | OrderType::Mw => a.estimate > b.estimate || (a.estimate == b.estimate && a.recency > b.recency),
    }
}

/// The candidate at `i` is the first that no other is preferred to.
pub open spec fn is_choice(order: OrderType, candidates: Seq<FlawCandidate>, i: int) -> bool {
    &&& 0 <= i < candidates.len()
    &&& forall|j: int| 0 <= j < candidates.len() ==> !prefers(order, #[trigger] candidates[j], candidates[i])
    &&& forall|j: int| 0 <= j < i ==> prefers(order, candidates[i], #[trigger] candidates[j])
}

fn set_first(a: bool, m: usize, b: bool, n: usize) -> (res: bool)
    ensures
        res == set_or_later(a, m, b, n),
{
    (a && !b) || (a == b && m > n)
}

fn is_preferred(order: OrderType, a: &FlawCandidate, b: &FlawCandidate) -> (res: bool)
    ensures
        res == prefers(order, *a, *b),
{
    match order {
        OrderType::Lifo => set_first(a.is_threat, a.recency, b.is_threat, b.recency),
        OrderType::Fifo => if a.is_threat != b.is_threat {
            !a.is_threat
        } else {
            a.recency < b.recency
        },
        OrderType::Random => a.recency > b.recency,
        OrderType::Lr => a.refinements < b.refinements || (a.refinements == b.refinements && set_first(
            a.is_threat,
            a.recency,
            b.is_threat,
            b.recency,
        )),
        OrderType::Mr => a.refinements > b.refinements || (a.refinements == b.refinements && set_first(
            a.is_threat,
            a.recency,
            b.is_threat,
            b.recency,
        )),
        OrderType::New => set_first(a.has_new, a.recency, b.has_new, b.recency),
        OrderType::Reuse => set_first(a.has_reuse, a.recency, b.has_reuse, b.recency),
        OrderType::Lc | OrderType::Lw => a.estimate < b.estimate || (a.estimate == b.estimate && a.recency > b.recency),
        OrderType::Mc | OrderType::Mw => a.estimate > b.estimate || (a.estimate == b.estimate && a.recency > b.recency),
    }
}

/// The candidate that the order prefers to all others, the first among equals.
pub fn choose_candidate(candidates: &Vec<FlawCandidate>, order: OrderType) -> (res: Option<FlawCandidate>)
    ensures
        match res {
            Some(c) => exists|i: int| #[trigger] is_choice(order, candidates@, i) && c == candidates@[i],
            None => candidates@.len() == 0,
        },
{
    if candidates.len() == 0 {
        return None;
    }
    let mut best: usize = 0;
    let mut i: usize = 1;
    while i < candidates.len()
        invariant
            1 <= i <= candidates@.len(),
            best < i,
            forall|j: int| 0 <= j < i ==> !prefers(order, #[trigger] candidates@[j], candidates@[best as int]),
            forall|j: int| 0 <= j < best ==> prefers(order, candidates@[best as int], #[trigger] candidates@[j]),
        decreases candidates@.len() - i,
    {
        if is_preferred(order, &candidates[i], &candidates[best]) {
            best = i;
        }
        i = i + 1;
    }
    assert(is_choice(order, candidates@, best as int));
    Some(candidates[best])
}

/// The number of values that the first `n` conditions leave out.
pub open spec fn alternatives(t: TaskView, conditions: Seq<Fact>, n: nat) -> nat
    decreases n,
{
    if n == 0 {
        0
    } else {
        alternatives(t, conditions, (n - 1) as nat) + (t.variables[conditions[n - 1].variable as int].values.len() - 1) as nat
    }
}

/// Whether the effect has a condition whose variable has another value.
pub open spec fn confrontable(t: TaskView, conditions: Seq<Fact>) -> bool {
    exists|k: int| 0 <= k < conditions.len() && t.variables[(#[trigger] conditions[k]).variable as int].values.len() > 1
}

pub open spec fn one_if(b: bool) -> nat {
    if b {
        1
    } else {
        0
    }
}

/// How many children resolve the threat.
pub open spec fn threat_count(t: TaskView, p: PlanView, threat: Threat) -> nat {
    let link = p.links[threat.link as int];
    let conditions = p.effects(t, threat.step as int)[threat.effect as int].conditions;
    one_if(link.producer != INIT_ID && p.may_precede(threat.step as int, link.producer as int)) + one_if(
        link.consumer != GOAL_ID && p.may_precede(link.consumer as int, threat.step as int),
    ) + alternatives(t, conditions, conditions.len())
}

/// How many of the first `n` achievers are effects of the operator.
pub open spec fn own_achievers(achievers: Seq<Achiever>, operator: usize, n: nat) -> nat
    decreases n,
{
    if n == 0 {
        0
    } else {
        own_achievers(achievers, operator, (n - 1) as nat) + one_if(achievers[n - 1].operator == operator)
    }
}

/// How many effects of the first `n` steps can support the condition.
pub open spec fn reuse_count(p: PlanView, open: OpenCondition, achievers: Seq<Achiever>, n: nat) -> nat
    decreases n,
{
    if n == 0 {
        0
    } else {
        let step = p.steps[n - 1];
        reuse_count(p, open, achievers, (n - 1) as nat) + (if p.may_precede(step.id as int, open.consumer as int) {
            own_achievers(achievers, step.operator, achievers.len())
        } else {
            0
        })
    }
}

/// How many ways there are to resolve the open condition.
pub open spec fn open_count(t: TaskView, p: PlanView, open: OpenCondition) -> nat {
    if t.derived(open.condition.variable as int) {
        supports_of(t, open.condition).len()
    } else {
        let achievers = achievers_of(t, open.condition);
        one_if(t.initial[open.condition.variable as int] == open.condition.value) + achievers.len() + reuse_count(
            p,
            open,
            achievers,
            p.steps.len(),
        )
    }
}

/// The count as far as an `i32` goes.
pub open spec fn as_refinements(n: nat) -> i32 {
    if n > i32::MAX {
        i32::MAX
    } else {
        n as i32
    }
}

/// Whether an existing step or the initial state makes the condition true.
pub open spec fn reusable(t: TaskView, p: PlanView, open: OpenCondition) -> bool {
    t.initial[open.condition.variable as int] == open.condition.value || reuse_count(
        p,
        open,
        achievers_of(t, open.condition),
        p.steps.len(),
    ) > 0
}

/// Whether a step that may precede the consumer assigns another value.
pub open spec fn unsafe_open(t: TaskView, p: PlanView, open: OpenCondition) -> bool {
    exists|i: int|
        0 <= i < p.steps.len() && p.may_precede((#[trigger] p.steps[i]).id as int, open.consumer as int) && any_clobbers(
            t,
            p.steps[i].operator,
            open.condition,
        )
}

pub open spec fn any_clobbers(t: TaskView, operator: usize, fact: Fact) -> bool {
    exists|e: int|
        0 <= e < t.operators[operator as int].effects.len() && clobbers(
            (#[trigger] t.operators[operator as int].effects[e]).variable,
            t.operators[operator as int].effects[e].post,
            fact,
        )
}

/// Whether the criterion speaks of the open condition.
pub open spec fn admits_open(t: TaskView, p: PlanView, c: SelectionCriterion, open: OpenCondition) -> bool {
    ||| c.open_cond
    ||| c.local_open_cond && open.consumer == p.opens.last().consumer
    ||| c.static_open_cond && !has_effect(t, open.condition.variable as int)
    ||| c.unsafe_open_cond && unsafe_open(t, p, open)
}

/// Whether the criterion speaks of the threat: `separable` is for the threats
/// that can be confronted, `non_separable` for the others.
pub open spec fn admits_threat(t: TaskView, p: PlanView, c: SelectionCriterion, threat: Threat) -> bool {
    if confrontable(t, p.effects(t, threat.step as int)[threat.effect as int].conditions) {
        c.separable
    } else {
        c.non_separable
    }
}

/// The criterion's candidates among the first `n` threats.
pub open spec fn threat_candidates(t: TaskView, p: PlanView, c: SelectionCriterion, threats: Seq<Threat>, n: nat) -> Seq<FlawCandidate>
    decreases n,
{
    if n == 0 {
        Seq::empty()
    } else {
        let before = threat_candidates(t, p, c, threats, (n - 1) as nat);
        let threat = threats[n - 1];
        let refinements = as_refinements(threat_count(t, p, threat));
        if admits_threat(t, p, c, threat) && refinements <= c.max_refinements {
            before.push(
                FlawCandidate {
                    flaw: SelectedFlaw::Threat(threat),
                    is_threat: true,
                    refinements,
                    recency: (n - 1) as usize,
                    has_new: false,
                    has_reuse: false,
                    estimate: 0,
                },
            )
        } else {
            before
        }
    }
}

/// What the criterion estimates the fact at.
pub open spec fn flaw_estimate(t: TaskView, cost: ActionCost, p: PlanView, c: SelectionCriterion, fact: Fact) -> u128 {
    match c.order {
        OrderType::Lc | OrderType::Mc => cost_values(t, cost, p, c.reuse)[number(t.variables, fact)],
        OrderType::Lw | OrderType::Mw => work_values(t, p, c.reuse)[number(t.variables, fact)],
        _ => 0,
    }
}

/// The criterion's candidates: those among the threats, then those among the
/// first `n` open conditions.
pub open spec fn open_candidates(
    t: TaskView,
    cost: ActionCost,
    p: PlanView,
    c: SelectionCriterion,
    n: nat,
    list: Seq<FlawCandidate>,
) -> Seq<FlawCandidate>
    decreases n,
{
    if n == 0 {
        list
    } else {
        let before = open_candidates(t, cost, p, c, (n - 1) as nat, list);
        let open = p.opens[n - 1];
        let refinements = as_refinements(open_count(t, p, open));
        if admits_open(t, p, c, open) && refinements <= c.max_refinements {
            before.push(
                FlawCandidate {
                    flaw: SelectedFlaw::Open((n - 1) as usize),
                    is_threat: false,
                    refinements,
                    recency: (n - 1) as usize,
                    has_new: t.derived(open.condition.variable as int) || achievers_of(t, open.condition).len() > 0,
                    has_reuse: reusable(t, p, open),
                    estimate: flaw_estimate(t, cost, p, c, open.condition),
                },
            )
        } else {
            before
        }
    }
}

/// The flaws that the criterion admits.
pub open spec fn candidates_of(t: TaskView, cost: ActionCost, p: PlanView, c: SelectionCriterion) -> Seq<FlawCandidate> {
    let threats = p.threats(t);
    open_candidates(t, cost, p, c, p.opens.len(), threat_candidates(t, p, c, threats, threats.len()))
}

/// The flaw is the choice of the first criterion that admits any.
pub open spec fn selects(t: TaskView, cost: ActionCost, p: PlanView, tiers: Seq<SelectionCriterion>, flaw: SelectedFlaw) -> bool {
    exists|k: int, i: int| #[trigger] selects_at(t, cost, p, tiers, k, i) && candidates_of(t, cost, p, tiers[k])[i].flaw == flaw
}

pub open spec fn selects_at(t: TaskView, cost: ActionCost, p: PlanView, tiers: Seq<SelectionCriterion>, k: int, i: int) -> bool {
    &&& 0 <= k < tiers.len()
    &&& forall|j: int| 0 <= j < k ==> candidates_of(t, cost, p, #[trigger] tiers[j]).len() == 0
    &&& is_choice(tiers[k].order, candidates_of(t, cost, p, tiers[k]), i)
}

/// The flaw is one of the plan.
pub open spec fn flaw_in(t: TaskView, p: PlanView, flaw: SelectedFlaw) -> bool {
    match flaw {
        SelectedFlaw::Threat(threat) => p.threatens(t, threat),
        SelectedFlaw::Open(at) => at < p.opens.len(),
    }
}

/// The children that resolve the flaw.
pub open spec fn flaw_children(t: TaskView, cost: ActionCost, p: PlanView, flaw: SelectedFlaw) -> Seq<PlanView> {
    match flaw {
        SelectedFlaw::Threat(threat) => threat_children(t, p, threat),
        SelectedFlaw::Open(at) => open_children(t, cost, p, at as int),
    }
}

fn capped_count(n: usize) -> (res: i32)
    ensures
        res == as_refinements(n as nat),
{
    if n > 0x7fff_ffff {
        i32::MAX
    } else {
        n as i32
    }
}

/// The count as far as a `usize` goes.
spec fn counted(n: nat) -> usize {
    if n > usize::MAX {
        usize::MAX
    } else {
        n as usize
    }
}

impl<'a> Planner<'a> {
    /// How many values the conditions leave out.
    fn count_alternatives(&self, conditions: &Vec<Fact>) -> (res: usize)
        requires
            self.wf(),
            facts_in(self.t().variables, conditions@),
        ensures
            res == counted(alternatives(self.t(), conditions@, conditions@.len())),
            res > 0 <==> confrontable(self.t(), conditions@),
    {
        let ghost t = self.t();
        let task = self.task();
        let mut n: usize = 0;
        let mut k: usize = 0;
        while k < conditions.len()
            invariant
                t == self.t(),
                task@ == t,
                facts_in(t.variables, conditions@),
                k <= conditions@.len(),
                n == counted(alternatives(t, conditions@, k as nat)),
                n > 0 ==> confrontable(t, conditions@),
                n == 0 ==> forall|j: int| 0 <= j < k ==> t.variables[(#[trigger] conditions@[j]).variable as int].values.len() <= 1,
            decreases conditions@.len() - k,
        {
            let fact = conditions[k];
            assert(fact_in(t.variables, conditions@[k as int]));
            assert(t.variables[fact.variable as int] == task.variables@[fact.variable as int]@);
            n = n.saturating_add(task.variables[fact.variable].values.len() - 1);
            k = k + 1;
        }
        n
    }

    /// How many children resolve the threat, and whether it can be confronted.
    pub fn threat_refinement_count(&self, plan: &PartialPlan, threat: &Threat) -> (res: (i32, bool))
        requires
            self.wf(),
            plan.wf(self.t()),
            plan@.threatens(self.t(), *threat),
        ensures
            res.0 == as_refinements(threat_count(self.t(), plan@, *threat)),
            res.1 == confrontable(self.t(), plan@.effects(self.t(), threat.step as int)[threat.effect as int].conditions),
    {
        let ghost t = self.t();
        let ghost p = plan@;
        let task = self.task();
        proof {
            self.lemma_wf();
        }
        let link = plan.links[threat.link];
        assert(p.link_in(t, p.links[threat.link as int]));
        let step = plan.steps[threat.step - 1];
        assert(p.steps[threat.step - 1].operator < t.operators.len());
        let operator = &task.operators[step.operator];
        assert(t.operators[step.operator as int] == operator@);
        assert(operator_in(t.variables, t.operators[step.operator as int]));
        let effect = &operator.effects[threat.effect];
        assert(operator@.effects[threat.effect as int] == effect@);
        assert(effect_in(t.variables, operator@.effects[threat.effect as int]));
        let others = self.count_alternatives(&effect.conditions);
        let mut n: usize = others;
        if link.producer != INIT_ID && plan.may_precede(threat.step, link.producer) {
            n = n.saturating_add(1);
        }
        if link.consumer != GOAL_ID && plan.may_precede(link.consumer, threat.step) {
            n = n.saturating_add(1);
        }
        (capped_count(n), others > 0)
    }

    /// How many effects of the steps can support the condition.
    fn count_reuse(&self, plan: &PartialPlan, open: &OpenCondition, achievers: &Vec<Achiever>) -> (res: usize)
        requires
            self.wf(),
            plan.wf(self.t()),
            plan@.open_in(self.t(), *open),
        ensures
            res == counted(reuse_count(plan@, *open, achievers@, plan@.steps.len())),
    {
        let ghost t = self.t();
        let ghost p = plan@;
        let mut n: usize = 0;
        let mut i: usize = 0;
        while i < plan.steps.len()
            invariant
                t == self.t(),
                p == plan@,
                plan.wf(t),
                p.open_in(t, *open),
                i <= p.steps.len(),
                n == counted(reuse_count(p, *open, achievers@, i as nat)),
            decreases p.steps.len() - i,
        {
            let step = plan.steps[i];
            assert(p.steps[i as int].id == i + 1);
            if plan.may_precede(step.id, open.consumer) {
                let mut own: usize = 0;
                let mut k: usize = 0;
                while k < achievers.len()
                    invariant
                        k <= achievers@.len(),
                        own <= k,
                        own == own_achievers(achievers@, step.operator, k as nat),
                    decreases achievers@.len() - k,
                {
                    if achievers[k].operator == step.operator {
                        own = own + 1;
                    }
                    k = k + 1;
                }
                n = n.saturating_add(own);
            }
            i = i + 1;
        }
        n
    }

    /// How many ways there are to resolve the open condition.
    pub fn open_refinement_count(&self, plan: &PartialPlan, open: &OpenCondition) -> (res: i32)
        requires
            self.wf(),
            plan.wf(self.t()),
            plan@.open_in(self.t(), *open),
        ensures
            res == as_refinements(open_count(self.t(), plan@, *open)),
    {
        proof {
            self.lemma_wf();
        }
        if let Some(supports) = self.supports(open.condition) {
            assert(clauses(supports@).len() == supports@.len());
            return capped_count(supports.len());
        }
        let achievers = self.achievers(open.condition);
        let mut n = self.count_reuse(plan, open, achievers);
        n = n.saturating_add(achievers.len());
        if self.task().initial[open.condition.variable] == open.condition.value {
            n = n.saturating_add(1);
        }
        capped_count(n)
    }

    /// Whether an existing step or the initial state makes the condition true.
    pub fn has_reuse(&self, plan: &PartialPlan, open: &OpenCondition) -> (res: bool)
        requires
            self.wf(),
            plan.wf(self.t()),
            plan@.open_in(self.t(), *open),
        ensures
            res == reusable(self.t(), plan@, *open),
    {
        proof {
            self.lemma_wf();
        }
        if self.task().initial[open.condition.variable] == open.condition.value {
            return true;
        }
        self.count_reuse(plan, open, self.achievers(open.condition)) > 0
    }

    /// Whether a step that may precede the consumer assigns another value.
    pub fn unsafe_open_condition(&self, plan: &PartialPlan, open: &OpenCondition) -> (res: bool)
        requires
            self.wf(),
            plan.wf(self.t()),
            plan@.open_in(self.t(), *open),
        ensures
            res == unsafe_open(self.t(), plan@, *open),
    {
        let ghost t = self.t();
        let ghost p = plan@;
        let task = self.task();
        let mut i: usize = 0;
        while i < plan.steps.len()
            invariant
                t == self.t(),
                task@ == t,
                p == plan@,
                plan.wf(t),
                p.open_in(t, *open),
                i <= p.steps.len(),
                forall|k: int|
                    0 <= k < i ==> !(p.may_precede((#[trigger] p.steps[k]).id as int, open.consumer as int) && any_clobbers(
                        t,
                        p.steps[k].operator,
                        open.condition,
                    )),
            decreases p.steps.len() - i,
        {
            let step = plan.steps[i];
            assert(p.steps[i as int].id == i + 1 && p.steps[i as int].operator < t.operators.len());
            if plan.may_precede(step.id, open.consumer) {
                let operator = &task.operators[step.operator];
                assert(t.operators[step.operator as int] == operator@);
                let mut e: usize = 0;
                while e < operator.effects.len()
                    invariant
                        p == plan@,
                        i < p.steps.len(),
                        step == p.steps[i as int],
                        p.may_precede(step.id as int, open.consumer as int),
                        t.operators[step.operator as int] == operator@,
                        t == self.t(),
                        e <= operator.effects@.len(),
                        forall|k: int|
                            0 <= k < e ==> !clobbers(
                                (#[trigger] t.operators[step.operator as int].effects[k]).variable,
                                t.operators[step.operator as int].effects[k].post,
                                open.condition,
                            ),
                    decreases operator.effects@.len() - e,
                {
                    let effect = &operator.effects[e];
                    assert(t.operators[step.operator as int].effects[e as int] == effect@);
                    if effect_clobbers(effect.variable, effect.post, open.condition) {
                        assert(any_clobbers(t, p.steps[i as int].operator, open.condition));
                        return true;
                    }
                    e = e + 1;
                }
            }
            i = i + 1;
        }
        false
    }

    /// Whether the criterion speaks of the open condition.
    pub fn open_matches(&self, criterion: &SelectionCriterion, plan: &PartialPlan, open: &OpenCondition) -> (res: bool)
        requires
            self.wf(),
            plan.wf(self.t()),
            plan@.open_in(self.t(), *open),
            plan@.opens.len() > 0,
        ensures
            res == admits_open(self.t(), plan@, *criterion, *open),
    {
        criterion.open_cond || (criterion.local_open_cond && open.consumer == plan.open_conditions[plan.open_conditions.len()
            - 1].consumer) || (criterion.static_open_cond && !self.changes(open.condition.variable)) || (criterion.unsafe_open_cond
            && self.unsafe_open_condition(plan, open))
    }

    /// The flaws that the criterion admits.
    pub fn candidates(&self, plan: &PartialPlan, criterion: &SelectionCriterion) -> (res: Vec<FlawCandidate>)
        requires
            self.wf(),
            plan.wf(self.t()),
        ensures
            res@ == candidates_of(self.t(), self.model(), plan@, *criterion),
    {
        let ghost t = self.t();
        let ghost p = plan@;
        let ghost threats = plan.threats@;
        let ghost c = *criterion;
        proof {
            self.lemma_wf();
            crate::fdr_plan::lemma_threats(p, t, threats);
        }
        let mut candidates: Vec<FlawCandidate> = Vec::new();
        let mut i: usize = 0;
        while i < plan.threats.len()
            invariant
                t == self.t(),
                self.wf(),
                p == plan@,
                plan.wf(t),
                threats == plan.threats@,
                c == *criterion,
                i <= threats.len(),
                candidates@ == threat_candidates(t, p, c, threats, i as nat),
            decreases threats.len() - i,
        {
            let threat = plan.threats[i];
            assert(threats.contains(threats[i as int]));
            let (refinements, confrontable) = self.threat_refinement_count(plan, &threat);
            let admitted = if confrontable {
                criterion.separable
            } else {
                criterion.non_separable
            };
            if admitted && refinements <= criterion.max_refinements {
                candidates.push(
                    FlawCandidate {
                        flaw: SelectedFlaw::Threat(threat),
                        is_threat: true,
                        refinements,
                        recency: i,
                        has_new: false,
                        has_reuse: false,
                        estimate: 0,
                    },
                );
            }
            i = i + 1;
        }
        let ghost list = candidates@;
        if plan.open_conditions.len() == 0 {
            return candidates;
        }
        proof {
            assert forall|k: int| 0 <= k < p.opens.len() implies fact_in(t.variables, (#[trigger] p.opens[k]).condition) by {
                assert(p.open_in(t, p.opens[k]));
            }
            assert(plan_in(t, p));
        }
        let values = if criterion.order.reads_estimates() {
            Some(self.relaxed_values(plan, criterion.reuse))
        } else {
            None
        };
        let mut i: usize = 0;
        while i < plan.open_conditions.len()
            invariant
                t == self.t(),
                self.wf(),
                p == plan@,
                plan.wf(t),
                p.opens.len() > 0,
                c == *criterion,
                i <= p.opens.len(),
                values is Some <==> c.order.estimates(),
                values matches Some((costs, works)) ==> {
                    &&& costs@ == cost_values(t, self.model(), p, c.reuse)
                    &&& works@ == work_values(t, p, c.reuse)
                    &&& costs@.len() == crate::fdr::count_facts(t.variables)
                    &&& works@.len() == crate::fdr::count_facts(t.variables)
                },
                candidates@ == open_candidates(t, self.model(), p, c, i as nat, list),
            decreases p.opens.len() - i,
        {
            let open = plan.open_conditions[i];
            assert(p.open_in(t, p.opens[i as int]));
            if self.open_matches(criterion, plan, &open) {
                let refinements = self.open_refinement_count(plan, &open);
                if refinements <= criterion.max_refinements {
                    let has_new = self.achievers(open.condition).len() > 0 || self.supports(open.condition).is_some();
                    let has_reuse = self.has_reuse(plan, &open);
                    let estimate = match &values {
                        Some((costs, works)) => {
                            let at = self.index(open.condition);
                            if criterion.order == OrderType::Lw || criterion.order == OrderType::Mw {
                                works[at]
                            } else {
                                costs[at]
                            }
                        },
                        None => 0,
                    };
                    assert(estimate == flaw_estimate(t, self.model(), p, c, open.condition));
                    candidates.push(
                        FlawCandidate {
                            flaw: SelectedFlaw::Open(i),
                            is_threat: false,
                            refinements,
                            recency: i,
                            has_new,
                            has_reuse,
                            estimate,
                        },
                    );
                }
            }
            i = i + 1;
        }
        candidates
    }

    /// The flaw that the order selects. Every plan that has a flaw has one that
    /// some criterion of a complete order admits.
    pub fn select_flaw(&self, plan: &PartialPlan, order: &FlawSelectionOrder) -> (res: SelectedFlaw)
        requires
            self.wf(),
            plan.wf(self.t()),
            plan@.opens.len() > 0 || plan.threats@.len() > 0,
        ensures
            selects(self.t(), self.model(), plan@, order.tiers(), res),
            flaw_in(self.t(), plan@, res),
    {
        let ghost t = self.t();
        let ghost p = plan@;
        let criteria = order.criteria();
        let ghost tiers = criteria@;
        let mut k: usize = 0;
        while k < criteria.len()
            invariant
                t == self.t(),
                self.wf(),
                p == plan@,
                plan.wf(t),
                tiers == criteria@,
                tiers == order.tiers(),
                k <= tiers.len(),
                forall|j: int| 0 <= j < k ==> candidates_of(t, self.model(), p, #[trigger] tiers[j]).len() == 0,
            decreases tiers.len() - k,
        {
            let candidates = self.candidates(plan, &criteria[k]);
            if let Some(c) = choose_candidate(&candidates, criteria[k].order) {
                proof {
                    let i = choose|i: int| #[trigger] is_choice(tiers[k as int].order, candidates@, i) && c == candidates@[i];
                    assert(selects_at(t, self.model(), p, tiers, k as int, i));
                    lemma_candidates_in(t, self.model(), plan, tiers[k as int]);
                    assert(flaw_in(t, p, candidates@[i].flaw));
                }
                return c.flaw;
            }
            k = k + 1;
        }
        proof {
            lemma_some_candidate(t, self.model(), plan, tiers);
            assert(false);
        }
        SelectedFlaw::Open(0)
    }

    /// The children of the plan: the refinements of the selected flaw.
    pub fn refinements(&self, plan: &PartialPlan, order: &FlawSelectionOrder) -> (res: Vec<PartialPlan>)
        requires
            self.wf(),
            plan.wf(self.t()),
            plan@.opens.len() > 0 || plan.threats@.len() > 0,
        ensures
            all_wf(self.t(), res@),
            exists|flaw: SelectedFlaw| #[trigger]
                selects(self.t(), self.model(), plan@, order.tiers(), flaw) && plan_views(res@) == flaw_children(
                    self.t(),
                    self.model(),
                    plan@,
                    flaw,
                ),
    {
        match self.select_flaw(plan, order) {
            SelectedFlaw::Threat(threat) => self.resolve_threat(plan, &threat),
            SelectedFlaw::Open(at) => self.resolve_open(plan, at),
        }
    }
}

pub(crate) proof fn lemma_threat_candidates_in(t: TaskView, p: PlanView, c: SelectionCriterion, threats: Seq<Threat>, n: nat)
    requires
        n <= threats.len(),
        forall|x: Threat| #[trigger] threats.contains(x) ==> p.threatens(t, x),
    ensures
        forall|i: int|
            0 <= i < threat_candidates(t, p, c, threats, n).len() ==> flaw_in(
                t,
                p,
                (#[trigger] threat_candidates(t, p, c, threats, n)[i]).flaw,
            ),
    decreases n,
{
    if n > 0 {
        lemma_threat_candidates_in(t, p, c, threats, (n - 1) as nat);
        assert(threats.contains(threats[n - 1]));
        let before = threat_candidates(t, p, c, threats, (n - 1) as nat);
        let after = threat_candidates(t, p, c, threats, n);
        assert forall|i: int| 0 <= i < after.len() implies flaw_in(t, p, (#[trigger] after[i]).flaw) by {
            if i < before.len() {
                assert(after[i] == before[i]);
            }
        }
    }
}

pub(crate) proof fn lemma_open_candidates_in(t: TaskView, cost: ActionCost, p: PlanView, c: SelectionCriterion, n: nat, list: Seq<FlawCandidate>)
    requires
        n <= p.opens.len() <= usize::MAX,
        forall|i: int| 0 <= i < list.len() ==> flaw_in(t, p, (#[trigger] list[i]).flaw),
    ensures
        forall|i: int|
            0 <= i < open_candidates(t, cost, p, c, n, list).len() ==> flaw_in(
                t,
                p,
                (#[trigger] open_candidates(t, cost, p, c, n, list)[i]).flaw,
            ),
    decreases n,
{
    if n > 0 {
        lemma_open_candidates_in(t, cost, p, c, (n - 1) as nat, list);
        let before = open_candidates(t, cost, p, c, (n - 1) as nat, list);
        let after = open_candidates(t, cost, p, c, n, list);
        assert forall|i: int| 0 <= i < after.len() implies flaw_in(t, p, (#[trigger] after[i]).flaw) by {
            if i < before.len() {
                assert(after[i] == before[i]);
            }
        }
    }
}

/// Every candidate is a flaw of the plan.
proof fn lemma_candidates_in(t: TaskView, cost: ActionCost, plan: &PartialPlan, c: SelectionCriterion)
    requires
        plan.wf(t),
    ensures
        forall|i: int|
            0 <= i < candidates_of(t, cost, plan@, c).len() ==> flaw_in(t, plan@, (#[trigger] candidates_of(t, cost, plan@, c)[i]).flaw),
{
    let p = plan@;
    crate::fdr_plan::lemma_threats(p, t, plan.threats@);
    assert(plan.open_conditions.len() == plan.open_conditions@.len());
    let threats = p.threats(t);
    lemma_threat_candidates_in(t, p, c, threats, threats.len());
    lemma_open_candidates_in(t, cost, p, c, p.opens.len(), threat_candidates(t, p, c, threats, threats.len()));
}

proof fn lemma_open_candidates_grow(t: TaskView, cost: ActionCost, p: PlanView, c: SelectionCriterion, n: nat, list: Seq<FlawCandidate>)
    ensures
        open_candidates(t, cost, p, c, n, list).len() >= list.len(),
    decreases n,
{
    if n > 0 {
        lemma_open_candidates_grow(t, cost, p, c, (n - 1) as nat, list);
    }
}

proof fn lemma_threat_candidate(t: TaskView, p: PlanView, c: SelectionCriterion, threats: Seq<Threat>, n: nat, i: int)
    requires
        0 <= i < n <= threats.len(),
        admits_threat(t, p, c, threats[i]),
        c.max_refinements == i32::MAX,
    ensures
        threat_candidates(t, p, c, threats, n).len() > 0,
    decreases n,
{
    if i < n - 1 {
        lemma_threat_candidate(t, p, c, threats, (n - 1) as nat, i);
    }
}

/// A complete order admits some flaw of a plan that has one.
proof fn lemma_some_candidate(t: TaskView, cost: ActionCost, plan: &PartialPlan, tiers: Seq<SelectionCriterion>)
    requires
        plan.wf(t),
        plan@.opens.len() > 0 || plan.threats@.len() > 0,
        complete(tiers),
    ensures
        exists|k: int| 0 <= k < tiers.len() && candidates_of(t, cost, plan@, #[trigger] tiers[k]).len() > 0,
{
    let p = plan@;
    crate::fdr_plan::lemma_threats(p, t, plan.threats@);
    let threats = p.threats(t);
    if threats.len() > 0 {
        let kind = if confrontable(t, p.effects(t, threats[0].step as int)[threats[0].effect as int].conditions) {
            FlawKind::Separable
        } else {
            FlawKind::NonSeparable
        };
        assert(crate::heuristics::some_uncapped(tiers, kind));
        let k = choose|k: int| 0 <= k < tiers.len() && uncapped(#[trigger] tiers[k], kind);
        let c = tiers[k];
        lemma_threat_candidate(t, p, c, threats, threats.len(), 0);
        lemma_open_candidates_grow(t, cost, p, c, p.opens.len(), threat_candidates(t, p, c, threats, threats.len()));
    } else {
        let k = choose|k: int| 0 <= k < tiers.len() && uncapped(#[trigger] tiers[k], FlawKind::Open);
        let c = tiers[k];
        let n = p.opens.len();
        lemma_open_candidates_grow(t, cost, p, c, (n - 1) as nat, threat_candidates(t, p, c, threats, threats.len()));
        assert(admits_open(t, p, c, p.opens[n - 1]));
        assert(candidates_of(t, cost, p, tiers[k]).len() > 0);
    }
}

/// New steps for the first `n` achievers give as many children.
proof fn lemma_new_step_count(t: TaskView, cost: ActionCost, p: PlanView, at: int, achievers: Seq<Achiever>, n: nat)
    requires
        p.wf(t),
        0 <= at < p.opens.len(),
        p.steps.len() < usize::MAX / 4,
    ensures
        new_step_children(t, cost, p, at, achievers, n).len() == n,
    decreases n,
{
    if n > 0 {
        lemma_new_step_count(t, cost, p, at, achievers, (n - 1) as nat);
        let id = p.steps.len() + 1;
        let consumer = p.opens[at].consumer as int;
        assert(p.open_in(t, p.opens[at]));
        assert(!p.order.contains((consumer, id as int)));
    }
}

/// A step that may precede the consumer gives a child for each of its effects that
/// achieve the condition.
proof fn lemma_step_reuse_count(t: TaskView, p: PlanView, at: int, step: Step, achievers: Seq<Achiever>, n: nat, list: Seq<PlanView>)
    requires
        p.may_precede(step.id as int, p.opens[at].consumer as int),
    ensures
        step_reuse(t, p, at, step, achievers, n, list).len() == list.len() + own_achievers(achievers, step.operator, n),
    decreases n,
{
    if n > 0 {
        lemma_step_reuse_count(t, p, at, step, achievers, (n - 1) as nat, list);
    }
}

/// The children by reuse of the last `n` steps.
proof fn lemma_reuse_count(t: TaskView, p: PlanView, at: int, achievers: Seq<Achiever>, n: nat, list: Seq<PlanView>)
    requires
        n <= p.steps.len(),
    ensures
        reuse_children(t, p, at, achievers, n, list).len() + reuse_count(p, p.opens[at], achievers, (p.steps.len() - n) as nat)
            == list.len() + reuse_count(p, p.opens[at], achievers, p.steps.len()),
    decreases n,
{
    if n > 0 {
        lemma_reuse_count(t, p, at, achievers, (n - 1) as nat, list);
        let before = reuse_children(t, p, at, achievers, (n - 1) as nat, list);
        let k = (p.steps.len() - n + 1) as nat;
        let step = p.steps[p.steps.len() - n];
        assert(p.steps[k - 1] == step);
        assert((k - 1) as nat == (p.steps.len() - n) as nat);
        if p.may_precede(step.id as int, p.opens[at].consumer as int) {
            lemma_step_reuse_count(t, p, at, step, achievers, achievers.len(), before);
        }
    }
}

/// The count of the ways to resolve an open condition is the number of its children, as
/// long as there is room for another step.
pub proof fn refinements_are_counted(t: TaskView, cost: ActionCost, p: PlanView, at: int)
    requires
        p.wf(t),
        0 <= at < p.opens.len(),
        p.steps.len() < usize::MAX / 4,
    ensures
        open_children(t, cost, p, at).len() == open_count(t, p, p.opens[at]),
{
    let open = p.opens[at];
    if !t.derived(open.condition.variable as int) {
        let achievers = achievers_of(t, open.condition);
        let fresh = new_step_children(t, cost, p, at, achievers, achievers.len());
        lemma_new_step_count(t, cost, p, at, achievers, achievers.len());
        lemma_reuse_count(t, p, at, achievers, p.steps.len(), fresh);
        assert(p.open_in(t, open));
        assert(!p.order.contains((open.consumer as int, 0)));
    }
}

} // verus!
