//! No refinement of a finite-domain plan loses what the plan needs.
use vstd::prelude::*;

use crate::fdr::{Fact, TaskView};
use crate::fdr_estimates::{achievers_of, Achiever, Planner};
use crate::fdr_lmcut::preconditions_of;
use crate::fdr_plan::{lemma_with_open_keeps, lemma_with_opens, lemma_without, with_opens, without, CausalLink, OpenCondition, PlanView, Threat};
use crate::fdr_refine::{
    candidates_of, confrontations, flaw_children, new_step_children, open_candidates, open_children, reuse_children, selects, selects_at,
    step_reuse, threat_candidates, threat_children, value_confrontations, with_plan, FlawCandidate, SelectedFlaw,
};
use crate::fdr_search::{is_child, is_grown, is_history, is_search_result, tiers_of, Node, Outcome, Solution};
use crate::heuristics::SelectionCriterion;
use crate::params::{ActionCost, Parameters};
use crate::plan::{GOAL_ID, INIT_ID};
use crate::supports::supports_of;

verus! {

/// Whether a condition of a step is replaced by a support, or linked.
pub open spec fn is_provided(p: PlanView, consumer: usize, fact: Fact) -> bool {
    ||| p.expanded.contains(OpenCondition { consumer, condition: fact })
    ||| exists|k: int| 0 <= k < p.links.len() && (#[trigger] p.links[k]).consumer == consumer && p.links[k].condition == fact
}

/// Whether a condition of a step is open, replaced by a support, or linked.
pub open spec fn has_condition(p: PlanView, consumer: usize, fact: Fact) -> bool {
    p.opens.contains(OpenCondition { consumer, condition: fact }) || is_provided(p, consumer, fact)
}

/// The conditions of the effect that a link uses: none for the initial state.
pub open spec fn link_conditions(t: TaskView, p: PlanView, link: CausalLink) -> Seq<Fact> {
    match link.effect {
        None => Seq::empty(),
        Some(e) => p.effects(t, link.producer as int)[e as int].conditions,
    }
}

/// Whether steps are numbered from one, and links that use an effect start at steps.
pub open spec fn is_numbered(p: PlanView) -> bool {
    &&& forall|i: int| 0 <= i < p.steps.len() ==> (#[trigger] p.steps[i]).id == i + 1
    &&& forall|k: int| 0 <= k < p.links.len() && (#[trigger] p.links[k]).effect is Some ==> p.is_step(p.links[k].producer as int)
}

/// Whether the plan is numbered, and every goal, every precondition of the operator of each
/// step, and every condition of an effect that a link uses, is a condition of the plan.
pub open spec fn needs_met(t: TaskView, p: PlanView) -> bool {
    &&& is_numbered(p)
    &&& forall|g: Fact| #[trigger] t.goals.contains(g) ==> has_condition(p, GOAL_ID, g)
    &&& forall|i: int, f: Fact|
        0 <= i < p.steps.len() && #[trigger] preconditions_of(t.operators[p.steps[i].operator as int]).contains(f) ==> has_condition(
            p,
            p.steps[i].id,
            f,
        )
    &&& forall|k: int, f: Fact|
        0 <= k < p.links.len() && #[trigger] link_conditions(t, p, p.links[k]).contains(f) ==> has_condition(p, p.links[k].producer, f)
}

/// The empty plan meets what it needs: its goals are open.
pub proof fn empty_plans_meet_their_needs(t: TaskView)
    ensures
        needs_met(t, PlanView::initial(t)),
{
    let p = PlanView::initial(t);
    assert forall|g: Fact| #[trigger] t.goals.contains(g) implies has_condition(p, GOAL_ID, g) by {
        let k = choose|k: int| 0 <= k < t.goals.len() && t.goals[k] == g;
        assert(p.opens[k] == (OpenCondition { consumer: GOAL_ID, condition: g }));
    }
}

/// In a plan that meets what it needs and has no open conditions, every goal, every
/// precondition of the operator of each step, and every condition of an effect that a link
/// uses, has a link to it or was replaced by a support.
pub proof fn plans_without_open_conditions_lack_nothing(t: TaskView, p: PlanView)
    requires
        needs_met(t, p),
        p.opens.len() == 0,
    ensures
        forall|g: Fact| #[trigger] t.goals.contains(g) ==> is_provided(p, GOAL_ID, g),
        forall|i: int, f: Fact|
            0 <= i < p.steps.len() && #[trigger] preconditions_of(t.operators[p.steps[i].operator as int]).contains(f) ==> is_provided(
                p,
                p.steps[i].id,
                f,
            ),
        forall|k: int, f: Fact|
            0 <= k < p.links.len() && #[trigger] link_conditions(t, p, p.links[k]).contains(f) ==> is_provided(p, p.links[k].producer, f),
{
}

/// Whether a plan has all the steps, links and conditions of another.
spec fn keeps(p: PlanView, q: PlanView) -> bool {
    &&& p.steps.len() <= q.steps.len()
    &&& forall|i: int| 0 <= i < p.steps.len() ==> #[trigger] q.steps[i] == p.steps[i]
    &&& p.links.len() <= q.links.len()
    &&& forall|i: int| 0 <= i < p.links.len() ==> #[trigger] q.links[i] == p.links[i]
    &&& forall|consumer: usize, fact: Fact| has_condition(p, consumer, fact) ==> #[trigger] has_condition(q, consumer, fact)
}

/// Whether the needs of the steps and links of `q` that `p` has not are met.
spec fn adds_met(t: TaskView, p: PlanView, q: PlanView) -> bool {
    &&& forall|i: int, f: Fact|
        p.steps.len() <= i < q.steps.len() && #[trigger] preconditions_of(t.operators[q.steps[i].operator as int]).contains(f)
            ==> has_condition(q, q.steps[i].id, f)
    &&& forall|k: int, f: Fact|
        p.links.len() <= k < q.links.len() && #[trigger] link_conditions(t, q, q.links[k]).contains(f) ==> has_condition(
            q,
            q.links[k].producer,
            f,
        )
}

proof fn lemma_needs_kept(t: TaskView, p: PlanView, q: PlanView)
    requires
        needs_met(t, p),
        keeps(p, q),
        adds_met(t, p, q),
        is_numbered(q),
    ensures
        needs_met(t, q),
{
    assert forall|i: int, f: Fact|
        0 <= i < q.steps.len() && #[trigger] preconditions_of(t.operators[q.steps[i].operator as int]).contains(f) implies has_condition(
        q,
        q.steps[i].id,
        f,
    ) by {
        if i < p.steps.len() {
            assert(q.steps[i] == p.steps[i]);
            assert(preconditions_of(t.operators[p.steps[i].operator as int]).contains(f));
            assert(has_condition(p, p.steps[i].id, f));
        }
    }
    assert forall|k: int, f: Fact|
        0 <= k < q.links.len() && #[trigger] link_conditions(t, q, q.links[k]).contains(f) implies has_condition(
        q,
        q.links[k].producer,
        f,
    ) by {
        if k < p.links.len() {
            let link = p.links[k];
            assert(q.links[k] == link);
            if link.effect is Some {
                assert(q.steps[link.producer - 1] == p.steps[link.producer - 1]);
            }
            assert(link_conditions(t, p, p.links[k]).contains(f));
            assert(has_condition(p, link.producer, f));
        }
    }
}

/// A plan in which the open condition at `at` has moved keeps all conditions.
proof fn lemma_conditions_move(p: PlanView, q: PlanView, at: int, consumer: usize, fact: Fact)
    requires
        0 <= at < p.opens.len(),
        forall|x: OpenCondition| p.opens.contains(x) ==> x == p.opens[at] || #[trigger] q.opens.contains(x),
        forall|x: OpenCondition| p.expanded.contains(x) ==> #[trigger] q.expanded.contains(x),
        p.links.len() <= q.links.len(),
        forall|i: int| 0 <= i < p.links.len() ==> #[trigger] q.links[i] == p.links[i],
        q.expanded.contains(p.opens[at]) || (q.links.len() > p.links.len() && q.links[p.links.len() as int].consumer
            == p.opens[at].consumer && q.links[p.links.len() as int].condition == p.opens[at].condition),
        has_condition(p, consumer, fact),
    ensures
        has_condition(q, consumer, fact),
{
    let x = OpenCondition { consumer, condition: fact };
    if p.expanded.contains(x) {
        assert(q.expanded.contains(x));
    } else if !p.opens.contains(x) {
        let k = choose|k: int| 0 <= k < p.links.len() && (#[trigger] p.links[k]).consumer == consumer && p.links[k].condition == fact;
        assert(q.links[k].consumer == consumer);
    } else if x == p.opens[at] {
        if !q.expanded.contains(x) {
            assert(q.links[p.links.len() as int].consumer == consumer);
        }
    } else {
        assert(q.opens.contains(x));
    }
}

/// Ordering two steps keeps what is needed.
pub proof fn ordering_keeps_needs(t: TaskView, p: PlanView, i: int, j: int)
    requires
        needs_met(t, p),
    ensures
        p.ordered_with(i, j) matches Some(q) ==> needs_met(t, q),
{
    if let Some(q) = p.ordered_with(i, j) {
        lemma_needs_kept(t, p, q);
    }
}

/// Committing a step to a fact keeps what is needed.
pub proof fn confronting_keeps_needs(t: TaskView, p: PlanView, step: usize, fact: Fact)
    requires
        needs_met(t, p),
    ensures
        needs_met(t, p.confronted(step, fact)),
{
    let q = p.confronted(step, fact);
    lemma_with_open_keeps(p.opens, OpenCondition { consumer: step, condition: fact });
    assert forall|consumer: usize, f: Fact| has_condition(p, consumer, f) implies #[trigger] has_condition(q, consumer, f) by {
        if p.opens.contains(OpenCondition { consumer, condition: f }) {
            assert(q.opens.contains(OpenCondition { consumer, condition: f }));
        }
    }
    lemma_needs_kept(t, p, q);
}

/// Replacing a derived condition by a support keeps what is needed.
pub proof fn expanding_keeps_needs(t: TaskView, p: PlanView, at: int, support: Seq<Fact>)
    requires
        needs_met(t, p),
        0 <= at < p.opens.len(),
    ensures
        needs_met(t, p.expanded_to(at, support)),
{
    let q = p.expanded_to(at, support);
    lemma_without(p.opens, at);
    lemma_with_opens(without(p.opens, at), p.opens[at].consumer, support, support.len());
    assert(q.expanded[p.expanded.len() as int] == p.opens[at]);
    assert forall|x: OpenCondition| p.expanded.contains(x) implies #[trigger] q.expanded.contains(x) by {
        let k = choose|k: int| 0 <= k < p.expanded.len() && p.expanded[k] == x;
        assert(q.expanded[k] == x);
    }
    assert forall|consumer: usize, fact: Fact| has_condition(p, consumer, fact) implies #[trigger] has_condition(q, consumer, fact) by {
        lemma_conditions_move(p, q, at, consumer, fact);
    }
    lemma_needs_kept(t, p, q);
}

/// Supporting a condition by the initial state, or by a step with the conditions of its
/// effect, keeps what is needed.
pub proof fn supporting_keeps_needs(t: TaskView, p: PlanView, at: int, producer: usize, effect: Option<usize>, conditions: Seq<Fact>)
    requires
        needs_met(t, p),
        0 <= at < p.opens.len(),
        effect is Some ==> p.is_step(producer as int) && conditions == p.effects(t, producer as int)[effect->0 as int].conditions,
    ensures
        p.supported(at, producer, effect, conditions) matches Some(q) ==> needs_met(t, q),
{
    if let Some(q) = p.supported(at, producer, effect, conditions) {
        lemma_without(p.opens, at);
        lemma_with_opens(without(p.opens, at), producer, conditions, conditions.len());
        assert forall|consumer: usize, fact: Fact| has_condition(p, consumer, fact) implies #[trigger] has_condition(q, consumer, fact) by {
            lemma_conditions_move(p, q, at, consumer, fact);
        }
        assert forall|k: int, f: Fact|
            p.links.len() <= k < q.links.len() && #[trigger] link_conditions(t, q, q.links[k]).contains(f) implies has_condition(
            q,
            q.links[k].producer,
            f,
        ) by {
            if effect is Some {
                let m = choose|m: int| 0 <= m < conditions.len() && conditions[m] == f;
                assert(q.opens.contains(OpenCondition { consumer: producer, condition: conditions[m] }));
            }
        }
        lemma_needs_kept(t, p, q);
    }
}

/// Supporting a condition by a new step keeps what is needed.
pub proof fn stepping_keeps_needs(t: TaskView, cost: ActionCost, p: PlanView, at: int, operator: usize, effect: usize)
    requires
        needs_met(t, p),
        0 <= at < p.opens.len(),
    ensures
        p.stepped(t, cost, at, operator, effect) matches Some(q) ==> needs_met(t, q),
{
    if let Some(q) = p.stepped(t, cost, at, operator, effect) {
        let o = t.operators[operator as int];
        let pre = preconditions_of(o);
        let conditions = o.effects[effect as int].conditions;
        let id = (p.steps.len() + 1) as usize;
        let mid = with_opens(without(p.opens, at), id, pre, pre.len());
        lemma_without(p.opens, at);
        lemma_with_opens(without(p.opens, at), id, pre, pre.len());
        lemma_with_opens(mid, id, conditions, conditions.len());
        assert forall|x: OpenCondition| p.opens.contains(x) implies x == p.opens[at] || #[trigger] q.opens.contains(x) by {
            if x != p.opens[at] {
                assert(without(p.opens, at).contains(x));
                assert(mid.contains(x));
            }
        }
        assert forall|consumer: usize, fact: Fact| has_condition(p, consumer, fact) implies #[trigger] has_condition(q, consumer, fact) by {
            lemma_conditions_move(p, q, at, consumer, fact);
        }
        assert forall|i: int, f: Fact|
            p.steps.len() <= i < q.steps.len() && #[trigger] preconditions_of(t.operators[q.steps[i].operator as int]).contains(f) implies has_condition(
            q,
            q.steps[i].id,
            f,
        ) by {
            let k = choose|k: int| 0 <= k < pre.len() && pre[k] == f;
            assert(mid.contains(OpenCondition { consumer: id, condition: pre[k] }));
            assert(q.opens.contains(OpenCondition { consumer: id, condition: f }));
        }
        assert forall|k: int, f: Fact|
            p.links.len() <= k < q.links.len() && #[trigger] link_conditions(t, q, q.links[k]).contains(f) implies has_condition(
            q,
            q.links[k].producer,
            f,
        ) by {
            assert(q.steps[id - 1].operator == operator);
            let m = choose|m: int| 0 <= m < conditions.len() && conditions[m] == f;
            assert(q.opens.contains(OpenCondition { consumer: id, condition: conditions[m] }));
        }
        lemma_needs_kept(t, p, q);
    }
}

/// Whether every plan of a list meets what it needs.
pub open spec fn all_met(t: TaskView, plans: Seq<PlanView>) -> bool {
    forall|i: int| 0 <= i < plans.len() ==> needs_met(t, #[trigger] plans[i])
}

proof fn lemma_met_with(t: TaskView, list: Seq<PlanView>, plan: Option<PlanView>)
    requires
        all_met(t, list),
        plan matches Some(q) ==> needs_met(t, q),
    ensures
        all_met(t, with_plan(list, plan)),
{
}

proof fn lemma_new_steps_met(t: TaskView, cost: ActionCost, p: PlanView, at: int, achievers: Seq<Achiever>, n: nat)
    requires
        needs_met(t, p),
        0 <= at < p.opens.len(),
    ensures
        all_met(t, new_step_children(t, cost, p, at, achievers, n)),
    decreases n,
{
    if n > 0 {
        let a = achievers[n - 1];
        lemma_new_steps_met(t, cost, p, at, achievers, (n - 1) as nat);
        stepping_keeps_needs(t, cost, p, at, a.operator, a.effect);
        lemma_met_with(
            t,
            new_step_children(t, cost, p, at, achievers, (n - 1) as nat),
            p.stepped(t, cost, at, a.operator, a.effect),
        );
    }
}

proof fn lemma_step_reuse_met(t: TaskView, p: PlanView, at: int, i: int, achievers: Seq<Achiever>, n: nat, list: Seq<PlanView>)
    requires
        needs_met(t, p),
        0 <= at < p.opens.len(),
        0 <= i < p.steps.len(),
        all_met(t, list),
    ensures
        all_met(t, step_reuse(t, p, at, p.steps[i], achievers, n, list)),
    decreases n,
{
    if n > 0 {
        let step = p.steps[i];
        let a = achievers[n - 1];
        lemma_step_reuse_met(t, p, at, i, achievers, (n - 1) as nat, list);
        if a.operator == step.operator {
            let conditions = t.operators[a.operator as int].effects[a.effect as int].conditions;
            assert(step.id == i + 1);
            supporting_keeps_needs(t, p, at, step.id, Some(a.effect), conditions);
            lemma_met_with(
                t,
                step_reuse(t, p, at, step, achievers, (n - 1) as nat, list),
                p.supported(at, step.id, Some(a.effect), conditions),
            );
        }
    }
}

proof fn lemma_reuse_met(t: TaskView, p: PlanView, at: int, achievers: Seq<Achiever>, n: nat, list: Seq<PlanView>)
    requires
        needs_met(t, p),
        0 <= at < p.opens.len(),
        n <= p.steps.len(),
        all_met(t, list),
    ensures
        all_met(t, reuse_children(t, p, at, achievers, n, list)),
    decreases n,
{
    if n > 0 {
        lemma_reuse_met(t, p, at, achievers, (n - 1) as nat, list);
        lemma_step_reuse_met(
            t,
            p,
            at,
            p.steps.len() - n,
            achievers,
            achievers.len(),
            reuse_children(t, p, at, achievers, (n - 1) as nat, list),
        );
    }
}

proof fn lemma_open_met(t: TaskView, cost: ActionCost, p: PlanView, at: int)
    requires
        needs_met(t, p),
        0 <= at < p.opens.len(),
    ensures
        all_met(t, open_children(t, cost, p, at)),
{
    let open = p.opens[at];
    if t.derived(open.condition.variable as int) {
        let supports = supports_of(t, open.condition);
        let plans = open_children(t, cost, p, at);
        assert forall|i: int| 0 <= i < plans.len() implies needs_met(t, #[trigger] plans[i]) by {
            expanding_keeps_needs(t, p, at, supports[i]);
        }
    } else {
        let achievers = achievers_of(t, open.condition);
        let fresh = new_step_children(t, cost, p, at, achievers, achievers.len());
        lemma_new_steps_met(t, cost, p, at, achievers, achievers.len());
        lemma_reuse_met(t, p, at, achievers, p.steps.len(), fresh);
        supporting_keeps_needs(t, p, at, INIT_ID, None, Seq::empty());
    }
}

proof fn lemma_values_met(t: TaskView, p: PlanView, step: usize, fact: Fact, n: nat, list: Seq<PlanView>)
    requires
        needs_met(t, p),
        all_met(t, list),
    ensures
        all_met(t, value_confrontations(p, step, fact, n, list)),
    decreases n,
{
    if n > 0 {
        lemma_values_met(t, p, step, fact, (n - 1) as nat, list);
        confronting_keeps_needs(t, p, step, Fact { variable: fact.variable, value: (n - 1) as usize });
    }
}

proof fn lemma_confrontations_met(t: TaskView, p: PlanView, step: usize, conditions: Seq<Fact>, n: nat)
    requires
        needs_met(t, p),
    ensures
        all_met(t, confrontations(t, p, step, conditions, n)),
    decreases n,
{
    if n > 0 {
        lemma_confrontations_met(t, p, step, conditions, (n - 1) as nat);
        lemma_values_met(
            t,
            p,
            step,
            conditions[n - 1],
            t.variables[conditions[n - 1].variable as int].values.len(),
            confrontations(t, p, step, conditions, (n - 1) as nat),
        );
    }
}

proof fn lemma_threat_met(t: TaskView, p: PlanView, threat: Threat)
    requires
        needs_met(t, p),
    ensures
        all_met(t, threat_children(t, p, threat)),
{
    let link = p.links[threat.link as int];
    let conditions = p.effects(t, threat.step as int)[threat.effect as int].conditions;
    lemma_confrontations_met(t, p, threat.step, conditions, conditions.len());
    ordering_keeps_needs(t, p, link.consumer as int, threat.step as int);
    ordering_keeps_needs(t, p, threat.step as int, link.producer as int);
}

/// Whether a flaw is in the lists of a plan.
pub open spec fn is_listed(p: PlanView, flaw: SelectedFlaw) -> bool {
    match flaw {
        SelectedFlaw::Threat(_) => true,
        SelectedFlaw::Open(at) => at < p.opens.len(),
    }
}

/// The children that resolve a flaw of a plan that meets what it needs meet what they need.
pub proof fn refinements_keep_needs(t: TaskView, cost: ActionCost, p: PlanView, flaw: SelectedFlaw)
    requires
        needs_met(t, p),
        is_listed(p, flaw),
    ensures
        all_met(t, flaw_children(t, cost, p, flaw)),
{
    match flaw {
        SelectedFlaw::Threat(threat) => lemma_threat_met(t, p, threat),
        SelectedFlaw::Open(at) => lemma_open_met(t, cost, p, at as int),
    }
}

proof fn lemma_threats_listed(t: TaskView, p: PlanView, c: SelectionCriterion, threats: Seq<Threat>, n: nat)
    ensures
        forall|i: int|
            0 <= i < threat_candidates(t, p, c, threats, n).len() ==> is_listed(p, (#[trigger] threat_candidates(t, p, c, threats, n)[i]).flaw),
    decreases n,
{
    if n > 0 {
        lemma_threats_listed(t, p, c, threats, (n - 1) as nat);
    }
}

proof fn lemma_opens_listed(t: TaskView, cost: ActionCost, p: PlanView, c: SelectionCriterion, n: nat, list: Seq<FlawCandidate>)
    requires
        n <= p.opens.len(),
        forall|i: int| 0 <= i < list.len() ==> is_listed(p, (#[trigger] list[i]).flaw),
    ensures
        forall|i: int|
            0 <= i < open_candidates(t, cost, p, c, n, list).len() ==> is_listed(
                p,
                (#[trigger] open_candidates(t, cost, p, c, n, list)[i]).flaw,
            ),
    decreases n,
{
    if n > 0 {
        lemma_opens_listed(t, cost, p, c, (n - 1) as nat, list);
    }
}

/// Every plan that a search generates meets what it needs.
pub proof fn searched_plans_meet_their_needs(pl: &Planner, params: &Parameters, history: Seq<Node>, i: int)
    requires
        is_history(pl, params, history),
        0 <= i < history.len(),
    ensures
        needs_met(pl.t(), history[i].view),
    decreases i,
{
    let t = pl.t();
    let cost = pl.model();
    assert(is_grown(pl, params, history, i));
    let q = history[i].view;
    if q == PlanView::initial(t) {
        empty_plans_meet_their_needs(t);
    } else {
        let j = choose|j: int|
            0 <= j < i && (#[trigger] history[j]).order == history[i].order && is_child(pl, params, history[i].order, history[j].view, q);
        let p = history[j].view;
        searched_plans_meet_their_needs(pl, params, history, j);
        let tiers = tiers_of(params, history[i].order);
        let flaw = choose|flaw: SelectedFlaw| #[trigger] selects(t, cost, p, tiers, flaw) && flaw_children(t, cost, p, flaw).contains(q);
        let (k, m) = choose|k: int, m: int| #[trigger] selects_at(t, cost, p, tiers, k, m) && candidates_of(t, cost, p, tiers[k])[m].flaw == flaw;
        let threats = p.threats(t);
        lemma_threats_listed(t, p, tiers[k], threats, threats.len());
        lemma_opens_listed(t, cost, p, tiers[k], p.opens.len(), threat_candidates(t, p, tiers[k], threats, threats.len()));
        refinements_keep_needs(t, cost, p, flaw);
        let plans = flaw_children(t, cost, p, flaw);
        let x = choose|x: int| 0 <= x < plans.len() && plans[x] == q;
        assert(needs_met(t, plans[x]));
    }
}

/// In the plan of a solution every goal, every precondition of a step, and every condition of
/// an effect that a link uses, has a link to it or was replaced by a support.
pub proof fn solutions_lack_nothing(pl: &Planner, params: &Parameters, history: Seq<Node>, solution: Solution, generated: nat)
    requires
        is_search_result(pl, params, history, Outcome::Solved(solution), generated),
    ensures
        needs_met(pl.t(), solution.plan@),
        solution.plan@.opens.len() == 0,
        forall|g: Fact| #[trigger] pl.t().goals.contains(g) ==> is_provided(solution.plan@, GOAL_ID, g),
        forall|i: int, f: Fact|
            0 <= i < solution.plan@.steps.len() && #[trigger] preconditions_of(
                pl.t().operators[solution.plan@.steps[i].operator as int],
            ).contains(f) ==> is_provided(solution.plan@, solution.plan@.steps[i].id, f),
{
    let i = choose|i: int| 0 <= i < history.len() && (#[trigger] history[i]).view == solution.plan@;
    searched_plans_meet_their_needs(pl, params, history, i);
    plans_without_open_conditions_lack_nothing(pl.t(), solution.plan@);
}

} // verus!
