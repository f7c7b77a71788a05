//! Finite-domain partial plans.
//!
//! Conditions and causal links protect [`Fact`] equalities, while effects are
//! finite-domain assignments. Consequently, assigning *any other value* to the
//! same variable is a causal threat, even when there is no explicit delete fact.
use std::rc::Rc;

use vstd::prelude::*;

use crate::fdr::{fact_in, facts_in, EffectView, Fact, Task, TaskView};
use crate::fdr_lmcut::{assignments, preconditions_of};
use crate::orderings::{lemma_pairs, lemma_refined_pairs, with_pair, BinaryOrderings, StepOrder, StepTime};
use crate::params::ActionCost;
use crate::plan::{GOAL_ID, INIT_ID};
use crate::text::copy_vec;

verus! {

/// A committed real step. Init and goal are represented by [`INIT_ID`] and
/// [`GOAL_ID`] and are not stored among the steps.
#[derive(Debug, Clone, Copy, PartialEq, Eq, Structural)]
pub struct Step {
    pub id: usize,
    pub operator: usize,
}

/// A finite-domain causal link `producer --(variable=value)--> consumer`.
#[derive(Debug, Clone, Copy, PartialEq, Eq, Structural)]
pub struct CausalLink {
    pub producer: usize,
    pub consumer: usize,
    pub condition: Fact,
    /// The producer's effect used to establish the link. `None` denotes the
    /// synthetic initial-state producer.
    pub effect: Option<usize>,
}

/// A finite-domain precondition not yet supported by a causal link.
#[derive(Debug, Clone, Copy, PartialEq, Eq, Structural)]
pub struct OpenCondition {
    pub consumer: usize,
    pub condition: Fact,
}

/// An assignment that can occur inside a causal link's protected interval.
#[derive(Debug, Clone, Copy, PartialEq, Eq, Structural)]
pub struct Threat {
    pub step: usize,
    pub effect: usize,
    pub link: usize,
}

/// What a partial plan commits to.
#[verifier::ext_equal]
pub struct PlanView {
    pub steps: Seq<Step>,
    pub links: Seq<CausalLink>,
    pub opens: Seq<OpenCondition>,
    /// The derived conditions that have been replaced by the facts of a support.
    pub expanded: Seq<OpenCondition>,
    /// The ordered pairs of real steps.
    pub order: Set<(int, int)>,
    /// The cost of the steps.
    pub cost: usize,
}

/// Whether an assignment of `post` to the variable destroys the protected fact.
pub open spec fn clobbers(variable: usize, post: usize, protected: Fact) -> bool {
    variable == protected.variable && post != protected.value
}

/// Whether an assignment of `post` to the variable destroys the protected fact.
pub fn effect_clobbers(variable: usize, post: usize, protected: Fact) -> (res: bool)
    ensures
        res == clobbers(variable, post, protected),
{
    variable == protected.variable && post != protected.value
}

/// The two facts give one variable different values.
pub open spec fn rules_out(a: Fact, b: Fact) -> bool {
    a.variable == b.variable && a.value != b.value
}

/// A condition in the list commits the step against the fact.
pub open spec fn opens_commit(opens: Seq<OpenCondition>, step: usize, fact: Fact) -> bool {
    exists|i: int| 0 <= i < opens.len() && (#[trigger] opens[i]).consumer == step && rules_out(opens[i].condition, fact)
}

pub open spec fn links_commit(links: Seq<CausalLink>, step: usize, fact: Fact) -> bool {
    exists|i: int| 0 <= i < links.len() && (#[trigger] links[i]).consumer == step && rules_out(links[i].condition, fact)
}

/// Discovery order: link, then step, then effect.
pub open spec fn threat_less(a: Threat, b: Threat) -> bool {
    a.link < b.link || (a.link == b.link && (a.step < b.step || (a.step == b.step && a.effect < b.effect)))
}

pub open spec fn in_discovery_order(s: Seq<Threat>) -> bool {
    forall|i: int, j: int| 0 <= i < j < s.len() ==> threat_less(#[trigger] s[i], #[trigger] s[j])
}

/// The condition is added unless it is there.
pub open spec fn with_open(opens: Seq<OpenCondition>, open: OpenCondition) -> Seq<OpenCondition> {
    if opens.contains(open) {
        opens
    } else {
        opens.push(open)
    }
}

/// The first `n` conditions are added for the consumer.
pub open spec fn with_opens(opens: Seq<OpenCondition>, consumer: usize, conditions: Seq<Fact>, n: nat) -> Seq<OpenCondition>
    decreases n,
{
    if n == 0 {
        opens
    } else {
        with_open(
            with_opens(opens, consumer, conditions, (n - 1) as nat),
            OpenCondition { consumer, condition: conditions[n - 1] },
        )
    }
}

/// The list without the condition at `i`; the last condition takes its place.
pub open spec fn without(opens: Seq<OpenCondition>, i: int) -> Seq<OpenCondition> {
    opens.update(i, opens.last()).drop_last()
}

impl PlanView {
    pub open spec fn is_step(self, id: int) -> bool {
        1 <= id <= self.steps.len()
    }

    /// Whether step `a` precedes step `b` in every linearization.
    pub open spec fn precedes(self, a: int, b: int) -> bool {
        a != b && (a == 0 || b == GOAL_ID || self.order.contains((a, b)))
    }

    /// Whether step `a` precedes step `b` in some linearization.
    pub open spec fn may_precede(self, a: int, b: int) -> bool {
        a != b && !self.precedes(b, a)
    }

    /// Whether the step can fall between the producer and the consumer.
    pub open spec fn inside(self, step: int, link: CausalLink) -> bool {
        self.may_precede(link.producer as int, step) && self.may_precede(step, link.consumer as int)
    }

    /// Whether the step needs the fact's variable to have another value.
    pub open spec fn committed(self, step: usize, fact: Fact) -> bool {
        opens_commit(self.opens, step, fact) || opens_commit(self.expanded, step, fact) || links_commit(self.links, step, fact)
    }

    /// Whether the step is committed against one of the conditions.
    pub open spec fn disarmed(self, step: usize, conditions: Seq<Fact>) -> bool {
        exists|k: int| 0 <= k < conditions.len() && self.committed(step, #[trigger] conditions[k])
    }

    /// The effects of a step.
    pub open spec fn effects(self, t: TaskView, step: int) -> Seq<EffectView> {
        t.operators[self.steps[step - 1].operator as int].effects
    }

    /// The assignment can occur inside the link's protected interval and destroy
    /// the protected fact.
    pub open spec fn threatens(self, t: TaskView, threat: Threat) -> bool {
        &&& threat.link < self.links.len()
        &&& self.is_step(threat.step as int)
        &&& threat.effect < self.effects(t, threat.step as int).len()
        &&& {
            let link = self.links[threat.link as int];
            let effect = self.effects(t, threat.step as int)[threat.effect as int];
            &&& threat.step != link.producer
            &&& threat.step != link.consumer
            &&& self.inside(threat.step as int, link)
            &&& clobbers(effect.variable, effect.post, link.condition)
            &&& !self.disarmed(threat.step, effect.conditions)
        }
    }

    /// The list holds the threats of the plan in discovery order.
    pub open spec fn discovers(self, t: TaskView, threats: Seq<Threat>) -> bool {
        &&& in_discovery_order(threats)
        &&& forall|x: Threat| #[trigger] threats.contains(x) <==> self.threatens(t, x)
    }

    /// The threats of the plan in discovery order.
    pub open spec fn threats(self, t: TaskView) -> Seq<Threat> {
        choose|s: Seq<Threat>| self.discovers(t, s)
    }

    pub open spec fn open_in(self, t: TaskView, open: OpenCondition) -> bool {
        (open.consumer == GOAL_ID || self.is_step(open.consumer as int)) && fact_in(t.variables, open.condition)
    }

    /// The link's producer makes the condition true and precedes the consumer.
    pub open spec fn link_in(self, t: TaskView, link: CausalLink) -> bool {
        &&& link.consumer == GOAL_ID || self.is_step(link.consumer as int)
        &&& fact_in(t.variables, link.condition)
        &&& self.precedes(link.producer as int, link.consumer as int)
        &&& match link.effect {
            None => link.producer == INIT_ID && t.initial[link.condition.variable as int] == link.condition.value,
            Some(e) => {
                &&& self.is_step(link.producer as int)
                &&& e < self.effects(t, link.producer as int).len()
                &&& assignments(self.effects(t, link.producer as int))[e as int] == link.condition
            },
        }
    }

    /// Steps are numbered from one; conditions and links speak of them and of
    /// the facts of the task; the order is a strict partial order over them.
    pub open spec fn wf(self, t: TaskView) -> bool {
        &&& self.steps.len() <= usize::MAX / 4
        &&& forall|i: int| 0 <= i < self.steps.len() ==> (#[trigger] self.steps[i]).id == i + 1 && self.steps[i].operator
            < t.operators.len()
        &&& forall|i: int| 0 <= i < self.links.len() ==> self.link_in(t, #[trigger] self.links[i])
        &&& forall|i: int| 0 <= i < self.opens.len() ==> self.open_in(t, #[trigger] self.opens[i])
        &&& forall|i: int| 0 <= i < self.expanded.len() ==> self.open_in(t, #[trigger] self.expanded[i])
        &&& forall|p: (int, int)| #[trigger] self.order.contains(p) ==> self.is_step(p.0) && self.is_step(p.1) && p.0 != p.1
        &&& forall|a: int, b: int| self.order.contains((a, b)) ==> !(#[trigger] self.order.contains((b, a)))
        &&& forall|a: int, b: int, c: int|
            #[trigger] self.order.contains((a, b)) && #[trigger] self.order.contains((b, c)) ==> self.order.contains((a, c))
    }

    /// The empty plan: every goal is an open condition.
    pub open spec fn initial(t: TaskView) -> PlanView {
        PlanView {
            steps: Seq::empty(),
            links: Seq::empty(),
            opens: t.goals.map_values(|g: Fact| OpenCondition { consumer: GOAL_ID, condition: g }),
            expanded: Seq::empty(),
            order: Set::empty(),
            cost: 0,
        }
    }

    /// The plan with step `i` before step `j`, unless that makes a cycle.
    pub open spec fn ordered_with(self, i: int, j: int) -> Option<PlanView> {
        if i == j || self.precedes(j, i) {
            None
        } else if self.precedes(i, j) {
            Some(self)
        } else {
            Some(PlanView { order: with_pair(self.order, i, j), ..self })
        }
    }

    /// The open condition at `at` is supported by the producer, whose effect has
    /// the given conditions.
    pub open spec fn supported(self, at: int, producer: usize, effect: Option<usize>, conditions: Seq<Fact>) -> Option<PlanView> {
        let open = self.opens[at];
        match self.ordered_with(producer as int, open.consumer as int) {
            None => None,
            Some(p) => Some(
                PlanView {
                    links: self.links.push(
                        CausalLink { producer, consumer: open.consumer, condition: open.condition, effect },
                    ),
                    opens: with_opens(without(self.opens, at), producer, conditions, conditions.len()),
                    ..p
                },
            ),
        }
    }

    /// The open condition at `at` is supported by an effect of a new step with
    /// the operator. `None` when no step id is left.
    pub open spec fn stepped(self, t: TaskView, cost: ActionCost, at: int, operator: usize, effect: usize) -> Option<PlanView> {
        let open = self.opens[at];
        let o = t.operators[operator as int];
        let pre = preconditions_of(o);
        let conditions = o.effects[effect as int].conditions;
        let id = (self.steps.len() + 1) as usize;
        if self.steps.len() + 1 > usize::MAX / 4 {
            None
        } else {
            match self.ordered_with(id as int, open.consumer as int) {
                None => None,
                Some(p) => Some(
                    PlanView {
                        steps: self.steps.push(Step { id, operator }),
                        links: self.links.push(
                            CausalLink { producer: id, consumer: open.consumer, condition: open.condition, effect: Some(effect) },
                        ),
                        opens: with_opens(
                            with_opens(without(self.opens, at), id, pre, pre.len()),
                            id,
                            conditions,
                            conditions.len(),
                        ),
                        cost: crate::fdr_plan::plus(self.cost, cost.cost_of(o.cost)),
                        ..p
                    },
                ),
            }
        }
    }

    /// The derived open condition at `at` is replaced by the facts of a support.
    pub open spec fn expanded_to(self, at: int, support: Seq<Fact>) -> PlanView {
        PlanView {
            opens: with_opens(without(self.opens, at), self.opens[at].consumer, support, support.len()),
            expanded: self.expanded.push(self.opens[at]),
            ..self
        }
    }

    /// The step is committed to the fact.
    pub open spec fn confronted(self, step: usize, fact: Fact) -> PlanView {
        PlanView { opens: with_open(self.opens, OpenCondition { consumer: step, condition: fact }), ..self }
    }
}

/// Addition that stops at the largest value.
pub open spec fn plus(a: usize, b: usize) -> usize {
    if a + b > usize::MAX {
        usize::MAX
    } else {
        (a + b) as usize
    }
}

/// Two lists in discovery order with the same threats are the same list.
pub proof fn lemma_same_threats(a: Seq<Threat>, b: Seq<Threat>)
    requires
        in_discovery_order(a),
        in_discovery_order(b),
        forall|x: Threat| a.contains(x) <==> b.contains(x),
    ensures
        a == b,
    decreases a.len(),
{
    if a.len() == 0 {
        if b.len() > 0 {
            assert(b.contains(b[0]));
        }
        assert(a =~= b);
    } else {
        assert(a.contains(a[0]));
        assert(b.len() > 0);
        assert(b.contains(b[0]));
        let i = choose|i: int| 0 <= i < b.len() && b[i] == a[0];
        let j = choose|j: int| 0 <= j < a.len() && a[j] == b[0];
        assert(a[0] == b[0]) by {
            if i > 0 {
                assert(threat_less(b[0], b[i]));
                if j > 0 {
                    assert(threat_less(a[0], a[j]));
                }
            }
        }
        let a1 = a.skip(1);
        let b1 = b.skip(1);
        assert forall|x: Threat| a1.contains(x) <==> b1.contains(x) by {
            if a1.contains(x) {
                let k = choose|k: int| 0 <= k < a1.len() && a1[k] == x;
                assert(a[k + 1] == x);
                assert(threat_less(a[0], a[k + 1]));
                assert(b.contains(x));
                let m = choose|m: int| 0 <= m < b.len() && b[m] == x;
                assert(m > 0);
                assert(b1[m - 1] == x);
            }
            if b1.contains(x) {
                let k = choose|k: int| 0 <= k < b1.len() && b1[k] == x;
                assert(b[k + 1] == x);
                assert(threat_less(b[0], b[k + 1]));
                assert(a.contains(x));
                let m = choose|m: int| 0 <= m < a.len() && a[m] == x;
                assert(m > 0);
                assert(a1[m - 1] == x);
            }
        }
        lemma_same_threats(a1, b1);
        assert(a =~= seq![a[0]] + a1);
        assert(b =~= seq![b[0]] + b1);
    }
}

/// A list that holds the threats in discovery order is *the* list of threats.
pub proof fn lemma_threats(p: PlanView, t: TaskView, threats: Seq<Threat>)
    requires
        p.discovers(t, threats),
    ensures
        p.threats(t) == threats,
{
    let s = p.threats(t);
    assert(p.discovers(t, s));
    assert forall|x: Threat| s.contains(x) <==> threats.contains(x) by {}
    lemma_same_threats(s, threats);
}

// ---------------------------------------------------------------------------
// What refinement keeps
// ---------------------------------------------------------------------------

/// `q` keeps what `p` is committed to: its steps and links, its order, and the
/// conditions of its steps.
pub open spec fn extends(p: PlanView, q: PlanView) -> bool {
    &&& p.steps.len() <= q.steps.len()
    &&& forall|i: int| 0 <= i < p.steps.len() ==> #[trigger] q.steps[i] == p.steps[i]
    &&& p.links.len() <= q.links.len()
    &&& forall|i: int| 0 <= i < p.links.len() ==> #[trigger] q.links[i] == p.links[i]
    &&& p.order.subset_of(q.order)
    &&& forall|step: usize, fact: Fact| p.committed(step, fact) ==> #[trigger] q.committed(step, fact)
}

/// No threat of the extended plan among the old links and steps is new.
pub proof fn lemma_no_new_threat(t: TaskView, p: PlanView, q: PlanView, x: Threat)
    requires
        extends(p, q),
        x.link < p.links.len(),
        p.is_step(x.step as int),
        q.threatens(t, x),
    ensures
        p.threatens(t, x),
{
    assert(q.links[x.link as int] == p.links[x.link as int]);
    assert(q.steps[x.step - 1] == p.steps[x.step - 1]);
    let conditions = p.effects(t, x.step as int)[x.effect as int].conditions;
    if p.disarmed(x.step, conditions) {
        let k = choose|k: int| 0 <= k < conditions.len() && p.committed(x.step, #[trigger] conditions[k]);
        assert(q.committed(x.step, conditions[k]));
    }
}

pub proof fn lemma_with_open_keeps(opens: Seq<OpenCondition>, open: OpenCondition)
    ensures
        with_open(opens, open).contains(open),
        forall|x: OpenCondition| opens.contains(x) ==> #[trigger] with_open(opens, open).contains(x),
        forall|x: OpenCondition| #[trigger] with_open(opens, open).contains(x) ==> opens.contains(x) || x == open,
{
    let after = with_open(opens, open);
    if !opens.contains(open) {
        assert(after[opens.len() as int] == open);
    }
    assert forall|x: OpenCondition| opens.contains(x) implies #[trigger] after.contains(x) by {
        let i = choose|i: int| 0 <= i < opens.len() && opens[i] == x;
        assert(after[i] == x);
    }
}

/// Adding conditions keeps the old ones and adds none but the given ones.
pub proof fn lemma_with_opens(opens: Seq<OpenCondition>, consumer: usize, conditions: Seq<Fact>, n: nat)
    requires
        n <= conditions.len(),
    ensures
        forall|x: OpenCondition| opens.contains(x) ==> #[trigger] with_opens(opens, consumer, conditions, n).contains(x),
        forall|x: OpenCondition| #[trigger]
            with_opens(opens, consumer, conditions, n).contains(x) ==> opens.contains(x) || (x.consumer == consumer
                && conditions.contains(x.condition)),
        forall|i: int|
            0 <= i < n ==> with_opens(opens, consumer, conditions, n).contains(
                OpenCondition { consumer, condition: #[trigger] conditions[i] },
            ),
    decreases n,
{
    if n > 0 {
        lemma_with_opens(opens, consumer, conditions, (n - 1) as nat);
        let before = with_opens(opens, consumer, conditions, (n - 1) as nat);
        lemma_with_open_keeps(before, OpenCondition { consumer, condition: conditions[n - 1] });
    }
}

pub proof fn lemma_without(opens: Seq<OpenCondition>, at: int)
    requires
        0 <= at < opens.len(),
    ensures
        forall|x: OpenCondition| opens.contains(x) ==> x == opens[at] || #[trigger] without(opens, at).contains(x),
        forall|x: OpenCondition| #[trigger] without(opens, at).contains(x) ==> opens.contains(x),
{
    let after = without(opens, at);
    assert forall|x: OpenCondition| opens.contains(x) implies x == opens[at] || #[trigger] after.contains(x) by {
        let i = choose|i: int| 0 <= i < opens.len() && opens[i] == x;
        if i != at {
            if i == opens.len() - 1 {
                assert(after[at] == x);
            } else {
                assert(after[i] == x);
            }
        }
    }
    assert forall|x: OpenCondition| #[trigger] after.contains(x) implies opens.contains(x) by {
        let i = choose|i: int| 0 <= i < after.len() && after[i] == x;
        if i == at {
            assert(opens[opens.len() - 1] == x);
        } else {
            assert(opens[i] == x);
        }
    }
}

proof fn lemma_opens_commit(a: Seq<OpenCondition>, b: Seq<OpenCondition>, step: usize, fact: Fact)
    requires
        opens_commit(a, step, fact),
        forall|x: OpenCondition| a.contains(x) ==> #[trigger] b.contains(x),
    ensures
        opens_commit(b, step, fact),
{
    let i = choose|i: int| 0 <= i < a.len() && (#[trigger] a[i]).consumer == step && rules_out(a[i].condition, fact);
    assert(a.contains(a[i]));
    assert(b.contains(a[i]));
    let k = choose|k: int| 0 <= k < b.len() && b[k] == a[i];
    assert(b[k].consumer == step);
}

/// Every condition of the old list is in one of the two new lists.
proof fn lemma_commitments_move(p: PlanView, q: PlanView, at: int)
    requires
        0 <= at < p.opens.len(),
        forall|x: OpenCondition| p.opens.contains(x) ==> x == p.opens[at] || #[trigger] q.opens.contains(x),
        forall|x: OpenCondition| p.expanded.contains(x) ==> #[trigger] q.expanded.contains(x),
        p.links.len() <= q.links.len(),
        forall|i: int| 0 <= i < p.links.len() ==> #[trigger] q.links[i] == p.links[i],
        q.expanded.contains(p.opens[at]) || (q.links.len() > p.links.len() && q.links[p.links.len() as int].consumer
            == p.opens[at].consumer && q.links[p.links.len() as int].condition == p.opens[at].condition),
    ensures
        forall|step: usize, fact: Fact| p.committed(step, fact) ==> #[trigger] q.committed(step, fact),
{
    assert forall|step: usize, fact: Fact| p.committed(step, fact) implies #[trigger] q.committed(step, fact) by {
        if opens_commit(p.expanded, step, fact) {
            lemma_opens_commit(p.expanded, q.expanded, step, fact);
        } else if links_commit(p.links, step, fact) {
            let i = choose|i: int| 0 <= i < p.links.len() && (#[trigger] p.links[i]).consumer == step && rules_out(
                p.links[i].condition,
                fact,
            );
            assert(q.links[i].consumer == step);
        } else {
            let i = choose|i: int| 0 <= i < p.opens.len() && (#[trigger] p.opens[i]).consumer == step && rules_out(
                p.opens[i].condition,
                fact,
            );
            let x = p.opens[i];
            assert(p.opens.contains(x));
            if q.opens.contains(x) {
                let k = choose|k: int| 0 <= k < q.opens.len() && q.opens[k] == x;
                assert(q.opens[k].consumer == step);
            } else if q.expanded.contains(x) {
                let k = choose|k: int| 0 <= k < q.expanded.len() && q.expanded[k] == x;
                assert(q.expanded[k].consumer == step);
            } else {
                assert(q.links[p.links.len() as int].consumer == step);
            }
        }
    }
}

/// Ordering two steps keeps a strict partial order.
pub proof fn lemma_ordered_with(t: TaskView, p: PlanView, i: int, j: int)
    requires
        p.wf(t),
        p.is_step(i) || i == 0,
        p.is_step(j) || j == GOAL_ID,
    ensures
        p.ordered_with(i, j) matches Some(q) ==> q.wf(t) && extends(p, q) && q.precedes(i, j),
{
    if let Some(q) = p.ordered_with(i, j) {
        if !p.precedes(i, j) {
            assert forall|a: int, b: int| q.order.contains((a, b)) implies !(#[trigger] q.order.contains((b, a))) by {
                if q.order.contains((b, a)) {
                    if p.order.contains((a, b)) && p.order.contains((b, a)) {
                    } else if p.order.contains((a, b)) {
                        assert(p.order.contains((j, i)) || i == j);
                    } else if p.order.contains((b, a)) {
                        assert(p.order.contains((j, i)) || i == j);
                    } else {
                        assert(p.order.contains((j, i)) || i == j);
                    }
                }
            }
            assert forall|a: int, b: int, c: int|
                #[trigger] q.order.contains((a, b)) && #[trigger] q.order.contains((b, c)) implies q.order.contains((a, c)) by {}
            assert forall|pair: (int, int)| #[trigger] q.order.contains(pair) implies q.is_step(pair.0) && q.is_step(pair.1) && pair.0
                != pair.1 by {
                if !p.order.contains(pair) {
                    if pair.0 != i {
                        assert(p.order.contains((pair.0, i)));
                    }
                    if pair.1 != j {
                        assert(p.order.contains((j, pair.1)));
                    }
                }
            }
            assert forall|k: int| 0 <= k < q.links.len() implies q.link_in(t, #[trigger] q.links[k]) by {
                assert(p.link_in(t, p.links[k]));
            }
            assert forall|k: int| 0 <= k < q.opens.len() implies q.open_in(t, #[trigger] q.opens[k]) by {
                assert(p.open_in(t, p.opens[k]));
            }
            assert forall|k: int| 0 <= k < q.expanded.len() implies q.open_in(t, #[trigger] q.expanded[k]) by {
                assert(p.open_in(t, p.expanded[k]));
            }
            assert(q.order.contains((i, j)));
        }
    }
}

/// Adding a step without an order keeps the plan well formed.
proof fn lemma_more_steps(t: TaskView, p: PlanView, operator: usize)
    requires
        p.wf(t),
        operator < t.operators.len(),
        p.steps.len() + 1 <= usize::MAX / 4,
    ensures
        ({
            let q = PlanView { steps: p.steps.push(Step { id: (p.steps.len() + 1) as usize, operator }), ..p };
            q.wf(t) && extends(p, q)
        }),
{
    let q = PlanView { steps: p.steps.push(Step { id: (p.steps.len() + 1) as usize, operator }), ..p };
    assert forall|k: int| 0 <= k < q.links.len() implies q.link_in(t, #[trigger] q.links[k]) by {
        assert(p.link_in(t, p.links[k]));
        let link = p.links[k];
        if link.effect is Some {
            assert(q.steps[link.producer - 1] == p.steps[link.producer - 1]);
        }
    }
    assert forall|k: int| 0 <= k < q.opens.len() implies q.open_in(t, #[trigger] q.opens[k]) by {
        assert(p.open_in(t, p.opens[k]));
    }
    assert forall|k: int| 0 <= k < q.expanded.len() implies q.open_in(t, #[trigger] q.expanded[k]) by {
        assert(p.open_in(t, p.expanded[k]));
    }
}

/// Replacing the open conditions by others that are well formed.
proof fn lemma_opens_in(t: TaskView, p: PlanView, opens: Seq<OpenCondition>, at: int, consumer: usize, conditions: Seq<Fact>)
    requires
        p.wf(t),
        0 <= at < opens.len(),
        forall|k: int| 0 <= k < opens.len() ==> p.open_in(t, #[trigger] opens[k]),
        facts_in(t.variables, conditions),
        conditions.len() > 0 ==> (consumer == GOAL_ID || p.is_step(consumer as int)),
    ensures
        forall|k: int|
            0 <= k < with_opens(without(opens, at), consumer, conditions, conditions.len()).len() ==> p.open_in(
                t,
                #[trigger] with_opens(without(opens, at), consumer, conditions, conditions.len())[k],
            ),
{
    let rest = without(opens, at);
    let all = with_opens(rest, consumer, conditions, conditions.len());
    lemma_without(opens, at);
    lemma_with_opens(rest, consumer, conditions, conditions.len());
    assert forall|k: int| 0 <= k < all.len() implies p.open_in(t, #[trigger] all[k]) by {
        assert(all.contains(all[k]));
        if rest.contains(all[k]) {
            assert(opens.contains(all[k]));
            let m = choose|m: int| 0 <= m < opens.len() && opens[m] == all[k];
            assert(p.open_in(t, opens[m]));
        } else {
            let m = choose|m: int| 0 <= m < conditions.len() && conditions[m] == all[k].condition;
            assert(fact_in(t.variables, conditions[m]));
        }
    }
}

proof fn lemma_more_opens_in(t: TaskView, p: PlanView, opens: Seq<OpenCondition>, consumer: usize, conditions: Seq<Fact>)
    requires
        p.wf(t),
        forall|k: int| 0 <= k < opens.len() ==> p.open_in(t, #[trigger] opens[k]),
        facts_in(t.variables, conditions),
        conditions.len() > 0 ==> (consumer == GOAL_ID || p.is_step(consumer as int)),
    ensures
        forall|k: int|
            0 <= k < with_opens(opens, consumer, conditions, conditions.len()).len() ==> p.open_in(
                t,
                #[trigger] with_opens(opens, consumer, conditions, conditions.len())[k],
            ),
{
    let all = with_opens(opens, consumer, conditions, conditions.len());
    lemma_with_opens(opens, consumer, conditions, conditions.len());
    assert forall|k: int| 0 <= k < all.len() implies p.open_in(t, #[trigger] all[k]) by {
        assert(all.contains(all[k]));
        if opens.contains(all[k]) {
            let m = choose|m: int| 0 <= m < opens.len() && opens[m] == all[k];
            assert(p.open_in(t, opens[m]));
        } else {
            let m = choose|m: int| 0 <= m < conditions.len() && conditions[m] == all[k].condition;
            assert(fact_in(t.variables, conditions[m]));
        }
    }
}

/// Whether the producer makes the condition true.
pub open spec fn produces(t: TaskView, p: PlanView, producer: usize, effect: Option<usize>, condition: Fact) -> bool {
    match effect {
        None => producer == INIT_ID && t.initial[condition.variable as int] == condition.value,
        Some(e) => {
            &&& p.is_step(producer as int)
            &&& e < p.effects(t, producer as int).len()
            &&& assignments(p.effects(t, producer as int))[e as int] == condition
        },
    }
}

/// Supporting an open condition keeps the plan well formed and what it is committed to.
pub proof fn lemma_supported(t: TaskView, p: PlanView, at: int, producer: usize, effect: Option<usize>, conditions: Seq<Fact>)
    requires
        p.wf(t),
        0 <= at < p.opens.len(),
        produces(t, p, producer, effect, p.opens[at].condition),
        facts_in(t.variables, conditions),
        effect is None ==> conditions.len() == 0,
    ensures
        p.supported(at, producer, effect, conditions) matches Some(q) ==> q.wf(t) && extends(p, q) && q.steps == p.steps
            && q.links.len() == p.links.len() + 1,
{
    let open = p.opens[at];
    assert(p.open_in(t, open));
    lemma_ordered_with(t, p, producer as int, open.consumer as int);
    if let Some(q) = p.supported(at, producer, effect, conditions) {
        let r = p.ordered_with(producer as int, open.consumer as int)->0;
        let link = q.links[p.links.len() as int];
        assert forall|k: int| 0 <= k < r.opens.len() implies r.open_in(t, #[trigger] r.opens[k]) by {}
        lemma_opens_in(t, r, p.opens, at, producer, conditions);
        assert forall|k: int| 0 <= k < q.opens.len() implies q.open_in(t, #[trigger] q.opens[k]) by {
            assert(r.open_in(t, q.opens[k]));
        }
        assert forall|k: int| 0 <= k < q.expanded.len() implies q.open_in(t, #[trigger] q.expanded[k]) by {
            assert(r.open_in(t, r.expanded[k]));
        }
        assert forall|k: int| 0 <= k < q.links.len() implies q.link_in(t, #[trigger] q.links[k]) by {
            if k < p.links.len() {
                assert(r.link_in(t, r.links[k]));
            }
        }
        lemma_without(p.opens, at);
        lemma_with_opens(without(p.opens, at), producer, conditions, conditions.len());
        lemma_commitments_move(p, q, at);
    }
}

/// Supporting an open condition with a new step keeps the plan well formed and
/// what it is committed to. It fails only when no step id is left.
pub proof fn lemma_stepped(t: TaskView, cost: ActionCost, p: PlanView, at: int, operator: usize, effect: usize)
    requires
        t.wf(),
        p.wf(t),
        0 <= at < p.opens.len(),
        operator < t.operators.len(),
        effect < t.operators[operator as int].effects.len(),
        assignments(t.operators[operator as int].effects)[effect as int] == p.opens[at].condition,
        facts_in(t.variables, preconditions_of(t.operators[operator as int])),
    ensures
        p.stepped(t, cost, at, operator, effect) is Some <==> p.steps.len() + 1 <= usize::MAX / 4,
        p.stepped(t, cost, at, operator, effect) matches Some(q) ==> q.wf(t) && extends(p, q) && q.steps.len() == p.steps.len() + 1
            && q.links.len() == p.links.len() + 1,
{
    let open = p.opens[at];
    let o = t.operators[operator as int];
    let pre = preconditions_of(o);
    let conditions = o.effects[effect as int].conditions;
    assert(p.open_in(t, open));
    if p.steps.len() + 1 <= usize::MAX / 4 {
        let id = (p.steps.len() + 1) as usize;
        let m = PlanView { steps: p.steps.push(Step { id, operator }), ..p };
        lemma_more_steps(t, p, operator);
        lemma_ordered_with(t, m, id as int, open.consumer as int);
        assert(!p.precedes(open.consumer as int, id as int));
        let q = p.stepped(t, cost, at, operator, effect)->0;
        let r = m.ordered_with(id as int, open.consumer as int)->0;
        assert(r.order == q.order);
        assert(crate::fdr::operator_in(t.variables, o));
        assert(crate::fdr::effect_in(t.variables, o.effects[effect as int]));
        assert forall|k: int| 0 <= k < p.opens.len() implies r.open_in(t, #[trigger] p.opens[k]) by {
            assert(r.open_in(t, r.opens[k]));
        }
        lemma_opens_in(t, r, p.opens, at, id, pre);
        let mid = with_opens(without(p.opens, at), id, pre, pre.len());
        lemma_more_opens_in(t, r, mid, id, conditions);
        assert forall|k: int| 0 <= k < q.opens.len() implies q.open_in(t, #[trigger] q.opens[k]) by {
            assert(r.open_in(t, q.opens[k]));
        }
        assert forall|k: int| 0 <= k < q.expanded.len() implies q.open_in(t, #[trigger] q.expanded[k]) by {
            assert(r.open_in(t, r.expanded[k]));
        }
        assert(q.steps == r.steps);
        assert forall|k: int| 0 <= k < q.links.len() implies q.link_in(t, #[trigger] q.links[k]) by {
            if k < p.links.len() {
                assert(r.link_in(t, r.links[k]));
            } else {
                assert(q.steps[id - 1].operator == operator);
            }
        }
        lemma_without(p.opens, at);
        lemma_with_opens(without(p.opens, at), id, pre, pre.len());
        lemma_with_opens(mid, id, conditions, conditions.len());
        assert forall|x: OpenCondition| p.opens.contains(x) implies x == p.opens[at] || #[trigger] q.opens.contains(x) by {
            if x != p.opens[at] {
                assert(without(p.opens, at).contains(x));
                assert(mid.contains(x));
            }
        }
        lemma_commitments_move(p, q, at);
        assert(extends(p, q));
    }
}

/// Replacing a derived condition keeps the plan well formed and what it is committed to.
pub proof fn lemma_expanded(t: TaskView, p: PlanView, at: int, support: Seq<Fact>)
    requires
        p.wf(t),
        0 <= at < p.opens.len(),
        facts_in(t.variables, support),
    ensures
        p.expanded_to(at, support).wf(t),
        extends(p, p.expanded_to(at, support)),
{
    let q = p.expanded_to(at, support);
    let open = p.opens[at];
    assert(p.open_in(t, open));
    lemma_opens_in(t, p, p.opens, at, open.consumer, support);
    assert forall|k: int| 0 <= k < q.opens.len() implies q.open_in(t, #[trigger] q.opens[k]) by {
        assert(p.open_in(t, q.opens[k]));
    }
    assert forall|k: int| 0 <= k < q.expanded.len() implies q.open_in(t, #[trigger] q.expanded[k]) by {
        if k < p.expanded.len() {
            assert(p.open_in(t, p.expanded[k]));
        }
    }
    assert forall|k: int| 0 <= k < q.links.len() implies q.link_in(t, #[trigger] q.links[k]) by {
        assert(p.link_in(t, p.links[k]));
    }
    lemma_without(p.opens, at);
    lemma_with_opens(without(p.opens, at), open.consumer, support, support.len());
    assert(q.expanded[p.expanded.len() as int] == open);
    assert forall|x: OpenCondition| p.expanded.contains(x) implies #[trigger] q.expanded.contains(x) by {
        let k = choose|k: int| 0 <= k < p.expanded.len() && p.expanded[k] == x;
        assert(q.expanded[k] == x);
    }
    lemma_commitments_move(p, q, at);
}

/// Committing a step keeps the plan well formed and what it is committed to.
pub proof fn lemma_confronted(t: TaskView, p: PlanView, step: usize, fact: Fact)
    requires
        p.wf(t),
        p.is_step(step as int),
        fact_in(t.variables, fact),
    ensures
        p.confronted(step, fact).wf(t),
        extends(p, p.confronted(step, fact)),
        forall|other: Fact| rules_out(fact, other) ==> #[trigger] p.confronted(step, fact).committed(step, other),
{
    let q = p.confronted(step, fact);
    let open = OpenCondition { consumer: step, condition: fact };
    lemma_with_open_keeps(p.opens, open);
    assert forall|k: int| 0 <= k < q.opens.len() implies q.open_in(t, #[trigger] q.opens[k]) by {
        assert(q.opens.contains(q.opens[k]));
        if p.opens.contains(q.opens[k]) {
            let m = choose|m: int| 0 <= m < p.opens.len() && p.opens[m] == q.opens[k];
            assert(p.open_in(t, p.opens[m]));
        }
    }
    assert forall|k: int| 0 <= k < q.expanded.len() implies q.open_in(t, #[trigger] q.expanded[k]) by {
        assert(p.open_in(t, p.expanded[k]));
    }
    assert forall|k: int| 0 <= k < q.links.len() implies q.link_in(t, #[trigger] q.links[k]) by {
        assert(p.link_in(t, p.links[k]));
    }
    assert forall|s: usize, f: Fact| p.committed(s, f) implies #[trigger] q.committed(s, f) by {
        if opens_commit(p.opens, s, f) {
            lemma_opens_commit(p.opens, q.opens, s, f);
        }
    }
    assert forall|other: Fact| rules_out(fact, other) implies #[trigger] q.committed(step, other) by {
        let k = choose|k: int| 0 <= k < q.opens.len() && q.opens[k] == open;
        assert(q.opens[k].consumer == step);
    }
}

// ---------------------------------------------------------------------------
// Partial plans
// ---------------------------------------------------------------------------

/// One immutable-by-convention finite-domain POCL search node.
#[derive(Debug)]
pub struct PartialPlan {
    pub steps: Rc<Vec<Step>>,
    pub links: Rc<Vec<CausalLink>>,
    pub open_conditions: Rc<Vec<OpenCondition>>,
    /// The derived conditions that have been replaced by the facts of a support.
    pub expanded: Rc<Vec<OpenCondition>>,
    pub orderings: Rc<BinaryOrderings>,
    /// The threats, in discovery order.
    pub threats: Rc<Vec<Threat>>,
    /// Accumulated cost of committed operators.
    pub cost: usize,
    pub next_step_id: usize,
    pub id: usize,
}

impl View for PartialPlan {
    type V = PlanView;

    open spec fn view(&self) -> PlanView {
        PlanView {
            steps: self.steps@,
            links: self.links@,
            opens: self.open_conditions@,
            expanded: self.expanded@,
            order: self.orderings.pairs(),
            cost: self.cost,
        }
    }
}

impl Clone for PartialPlan {
    fn clone(&self) -> (res: Self)
        ensures
            res == *self,
    {
        PartialPlan {
            steps: Rc::clone(&self.steps),
            links: Rc::clone(&self.links),
            open_conditions: Rc::clone(&self.open_conditions),
            expanded: Rc::clone(&self.expanded),
            orderings: Rc::clone(&self.orderings),
            threats: Rc::clone(&self.threats),
            cost: self.cost,
            next_step_id: self.next_step_id,
            id: self.id,
        }
    }
}

/// Whether a condition in the list commits the step against the fact.
fn any_open_commits(opens: &Vec<OpenCondition>, step: usize, fact: Fact) -> (res: bool)
    ensures
        res == opens_commit(opens@, step, fact),
{
    let mut i: usize = 0;
    while i < opens.len()
        invariant
            i <= opens@.len(),
            forall|k: int| 0 <= k < i ==> !((#[trigger] opens@[k]).consumer == step && rules_out(opens@[k].condition, fact)),
        decreases opens@.len() - i,
    {
        let open = opens[i];
        if open.consumer == step && open.condition.variable == fact.variable && open.condition.value != fact.value {
            assert(opens@[i as int].consumer == step);
            return true;
        }
        i = i + 1;
    }
    false
}

fn any_link_commits(links: &Vec<CausalLink>, step: usize, fact: Fact) -> (res: bool)
    ensures
        res == links_commit(links@, step, fact),
{
    let mut i: usize = 0;
    while i < links.len()
        invariant
            i <= links@.len(),
            forall|k: int| 0 <= k < i ==> !((#[trigger] links@[k]).consumer == step && rules_out(links@[k].condition, fact)),
        decreases links@.len() - i,
    {
        let link = links[i];
        if link.consumer == step && link.condition.variable == fact.variable && link.condition.value != fact.value {
            assert(links@[i as int].consumer == step);
            return true;
        }
        i = i + 1;
    }
    false
}

/// Whether discovery lists `a` before `b`.
fn threat_before(a: &Threat, b: &Threat) -> (res: bool)
    ensures
        res == threat_less(*a, *b),
{
    a.link < b.link || (a.link == b.link && (a.step < b.step || (a.step == b.step && a.effect < b.effect)))
}

/// Two lists in discovery order, merged.
fn merge_threats(a: &Vec<Threat>, b: &Vec<Threat>) -> (res: Vec<Threat>)
    requires
        in_discovery_order(a@),
        in_discovery_order(b@),
        forall|x: Threat| a@.contains(x) ==> !(#[trigger] b@.contains(x)),
    ensures
        in_discovery_order(res@),
        forall|x: Threat| #[trigger] res@.contains(x) <==> a@.contains(x) || b@.contains(x),
{
    let mut res: Vec<Threat> = Vec::new();
    let mut i: usize = 0;
    let mut j: usize = 0;
    while i < a.len() || j < b.len()
        invariant
            in_discovery_order(a@),
            in_discovery_order(b@),
            forall|x: Threat| a@.contains(x) ==> !(#[trigger] b@.contains(x)),
            i <= a@.len(),
            j <= b@.len(),
            in_discovery_order(res@),
            forall|k: int, m: int| 0 <= k < res@.len() && i <= m < a@.len() ==> threat_less(#[trigger] res@[k], #[trigger] a@[m]),
            forall|k: int, m: int| 0 <= k < res@.len() && j <= m < b@.len() ==> threat_less(#[trigger] res@[k], #[trigger] b@[m]),
            forall|k: int| 0 <= k < i ==> res@.contains(#[trigger] a@[k]),
            forall|k: int| 0 <= k < j ==> res@.contains(#[trigger] b@[k]),
            forall|k: int| 0 <= k < res@.len() ==> a@.contains(#[trigger] res@[k]) || b@.contains(res@[k]),
        decreases a@.len() - i + b@.len() - j,
    {
        let ghost before = res@;
        if j >= b.len() || (i < a.len() && threat_before(&a[i], &b[j])) {
            let x = a[i];
            res.push(x);
            i = i + 1;
            proof {
                assert(a@.contains(x));
                assert(res@[before.len() as int] == x);
                if j < b@.len() {
                    assert forall|m: int| j <= m < b@.len() implies threat_less(x, #[trigger] b@[m]) by {
                        if m > j {
                            assert(threat_less(b@[j as int], b@[m]));
                        }
                    }
                }
            }
        } else {
            let x = b[j];
            proof {
                assert(b@.contains(x));
                if i < a@.len() {
                    assert(a@.contains(a@[i as int]));
                    assert(a@[i as int] != x);
                }
            }
            res.push(x);
            j = j + 1;
            proof {
                assert(res@[before.len() as int] == x);
                assert forall|m: int| i <= m < a@.len() implies threat_less(x, #[trigger] a@[m]) by {
                    if m > i {
                        assert(threat_less(a@[i as int], a@[m]));
                    }
                }
            }
        }
        proof {
            assert forall|y: Threat| before.contains(y) implies res@.contains(y) by {
                let k = choose|k: int| 0 <= k < before.len() && before[k] == y;
                assert(res@[k] == y);
            }
            assert forall|k: int| 0 <= k < i implies res@.contains(#[trigger] a@[k]) by {
                if !before.contains(a@[k]) {
                    assert(res@[before.len() as int] == a@[k]);
                }
            }
            assert forall|k: int| 0 <= k < j implies res@.contains(#[trigger] b@[k]) by {
                if !before.contains(b@[k]) {
                    assert(res@[before.len() as int] == b@[k]);
                }
            }
            assert forall|k: int| 0 <= k < res@.len() implies a@.contains(#[trigger] res@[k]) || b@.contains(res@[k]) by {
                if k < before.len() {
                    assert(res@[k] == before[k]);
                }
            }
        }
    }
    proof {
        assert forall|x: Threat| #[trigger] res@.contains(x) <==> a@.contains(x) || b@.contains(x) by {
            if res@.contains(x) {
                let k = choose|k: int| 0 <= k < res@.len() && res@[k] == x;
                assert(a@.contains(res@[k]) || b@.contains(res@[k]));
            }
            if a@.contains(x) {
                let k = choose|k: int| 0 <= k < a@.len() && a@[k] == x;
                assert(res@.contains(a@[k]));
            }
            if b@.contains(x) {
                let k = choose|k: int| 0 <= k < b@.len() && b@[k] == x;
                assert(res@.contains(b@[k]));
            }
        }
    }
    res
}

impl PartialPlan {
    /// The plan without its list of threats is well formed.
    pub open spec fn sound(&self, t: TaskView) -> bool {
        &&& self@.wf(t)
        &&& self.orderings.wf()
        &&& self.orderings.high() == self.steps@.len()
        &&& self.next_step_id == self.steps@.len() + 1
    }

    /// The plan is well formed, and the list of threats is what discovery finds.
    pub open spec fn wf(&self, t: TaskView) -> bool {
        self.sound(t) && self@.discovers(t, self.threats@)
    }

    /// The empty plan: every goal is an open condition.
    pub fn initial(task: &Task) -> (res: Self)
        requires
            task.wf(),
        ensures
            res.wf(task@),
            res@ == PlanView::initial(task@),
            res.id == 0,
    {
        let mut open_conditions: Vec<OpenCondition> = Vec::new();
        let mut i: usize = 0;
        while i < task.goals.len()
            invariant
                i <= task.goals@.len(),
                open_conditions@.len() == i,
                forall|k: int|
                    0 <= k < i ==> #[trigger] open_conditions@[k] == (OpenCondition { consumer: GOAL_ID, condition: task.goals@[k] }),
            decreases task.goals@.len() - i,
        {
            open_conditions.push(OpenCondition { consumer: GOAL_ID, condition: task.goals[i] });
            i = i + 1;
        }
        let res = PartialPlan {
            steps: Rc::new(Vec::new()),
            links: Rc::new(Vec::new()),
            open_conditions: Rc::new(open_conditions),
            expanded: Rc::new(Vec::new()),
            orderings: Rc::new(BinaryOrderings::new()),
            threats: Rc::new(Vec::new()),
            cost: 0,
            next_step_id: 1,
            id: 0,
        };
        proof {
            lemma_pairs(&*res.orderings);
            assert(res@.order =~= Set::empty()) by {
                assert forall|p: (int, int)| !(#[trigger] res@.order.contains(p)) by {}
            }
            assert(res@ =~= PlanView::initial(task@));
            assert forall|k: int| 0 <= k < res@.opens.len() implies res@.open_in(task@, #[trigger] res@.opens[k]) by {
                assert(fact_in(task@.variables, task@.goals[k]));
            }
        }
        res
    }

    /// No condition is open and nothing is threatened.
    pub fn complete(&self, _task: &Task) -> (res: bool)
        ensures
            res == (self@.opens.len() == 0 && self.threats@.len() == 0),
    {
        self.open_conditions.len() == 0 && self.threats.len() == 0
    }

    /// The threats in discovery order.
    pub fn threats(&self, _task: &Task) -> (res: Vec<Threat>)
        requires
            self.wf(_task@),
        ensures
            res@ == self@.threats(_task@),
    {
        proof {
            lemma_threats(self@, _task@, self.threats@);
        }
        copy_vec(&*self.threats)
    }

    pub fn num_steps(&self) -> (res: usize)
        ensures
            res == self@.steps.len(),
    {
        self.steps.len()
    }

    pub fn cost(&self) -> (res: usize)
        ensures
            res == self@.cost,
    {
        self.cost
    }

    pub fn num_open_conditions(&self) -> (res: usize)
        ensures
            res == self@.opens.len(),
    {
        self.open_conditions.len()
    }

    /// Whether `a` precedes `b` in some linearization.
    pub fn may_precede(&self, a: usize, b: usize) -> (res: bool)
        requires
            self.orderings.wf(),
            self.orderings.high() == self.steps@.len(),
            self@.is_step(a as int) || a == INIT_ID || a == GOAL_ID,
            self@.is_step(b as int) || b == INIT_ID || b == GOAL_ID,
        ensures
            res == self@.may_precede(a as int, b as int),
    {
        let res = self.orderings.possibly_before(a, StepTime::AtEnd, b, StepTime::AtStart);
        assert(self@.order.contains((b as int, a as int)) == self.orderings.ordered(b as int, a as int));
        res
    }

    fn can_be_inside(&self, step: usize, link: &CausalLink, Ghost(t): Ghost<TaskView>) -> (res: bool)
        requires
            self.sound(t),
            self@.is_step(step as int),
            self@.link_in(t, *link),
        ensures
            res == self@.inside(step as int, *link),
    {
        self.may_precede(link.producer, step) && self.may_precede(step, link.consumer)
    }

    /// Whether the step is committed against one of the conditions.
    pub fn is_disarmed(&self, step: usize, conditions: &Vec<Fact>) -> (res: bool)
        ensures
            res == self@.disarmed(step, conditions@),
    {
        let mut k: usize = 0;
        while k < conditions.len()
            invariant
                k <= conditions@.len(),
                forall|j: int| 0 <= j < k ==> !self@.committed(step, #[trigger] conditions@[j]),
            decreases conditions@.len() - k,
        {
            let fact = conditions[k];
            if any_open_commits(&*self.open_conditions, step, fact) || any_open_commits(&*self.expanded, step, fact)
                || any_link_commits(&*self.links, step, fact) {
                assert(self@.committed(step, conditions@[k as int]));
                return true;
            }
            k = k + 1;
        }
        false
    }

    /// Whether the assignment threatens the link.
    fn threat_active(&self, task: &Task, threat: &Threat) -> (res: bool)
        requires
            task.wf(),
            self.sound(task@),
        ensures
            res == self@.threatens(task@, *threat),
    {
        let ghost t = task@;
        if threat.link >= self.links.len() {
            return false;
        }
        let link = self.links[threat.link];
        assert(self@.link_in(t, self@.links[threat.link as int]));
        if threat.step == 0 || threat.step > self.steps.len() {
            return false;
        }
        if threat.step == link.producer || threat.step == link.consumer {
            return false;
        }
        let step = self.steps[threat.step - 1];
        assert(self@.steps[threat.step - 1].operator < t.operators.len());
        let operator = &task.operators[step.operator];
        assert(t.operators[step.operator as int] == operator@);
        if threat.effect >= operator.effects.len() {
            return false;
        }
        let effect = &operator.effects[threat.effect];
        assert(operator@.effects[threat.effect as int] == effect@);
        effect_clobbers(effect.variable, effect.post, link.condition) && self.can_be_inside(threat.step, &link, Ghost(t))
            && !self.is_disarmed(threat.step, &effect.conditions)
    }

    /// The threats of one step to one link, in the order of its effects.
    fn pair_threats(&self, task: &Task, link_index: usize, step_id: usize, out: &mut Vec<Threat>)
        requires
            task.wf(),
            self.sound(task@),
            link_index < self@.links.len(),
            self@.is_step(step_id as int),
            in_discovery_order(old(out)@),
            forall|k: int|
                0 <= k < old(out)@.len() ==> threat_less(
                    #[trigger] old(out)@[k],
                    Threat { step: step_id, effect: 0, link: link_index },
                ),
        ensures
            in_discovery_order(final(out)@),
            forall|k: int|
                0 <= k < final(out)@.len() ==> ((#[trigger] final(out)@[k]).link == link_index && final(out)@[k].step == step_id)
                    || threat_less(final(out)@[k], Threat { step: step_id, effect: 0, link: link_index }),
            forall|x: Threat| #[trigger]
                final(out)@.contains(x) <==> old(out)@.contains(x) || (x.link == link_index && x.step == step_id
                    && self@.threatens(task@, x)),
    {
        let ghost t = task@;
        let ghost start = out@;
        let ghost low = Threat { step: step_id, effect: 0, link: link_index };
        let step = self.steps[step_id - 1];
        assert(self@.steps[step_id - 1].operator < t.operators.len());
        let operator = &task.operators[step.operator];
        assert(t.operators[step.operator as int] == operator@);
        let mut e: usize = 0;
        while e < operator.effects.len()
            invariant
                t == task@,
                task.wf(),
                self.sound(t),
                start == old(out)@,
                link_index < self@.links.len(),
                self@.is_step(step_id as int),
                step == self@.steps[step_id - 1],
                step.operator < t.operators.len(),
                t.operators[step.operator as int] == operator@,
                low == (Threat { step: step_id, effect: 0, link: link_index }),
                e <= operator.effects@.len(),
                in_discovery_order(out@),
                forall|k: int|
                    0 <= k < out@.len() ==> ((#[trigger] out@[k]).link == link_index && out@[k].step == step_id && out@[k].effect < e)
                        || threat_less(out@[k], low),
                forall|x: Threat| #[trigger]
                    out@.contains(x) <==> start.contains(x) || (x.link == link_index && x.step == step_id && x.effect < e
                        && self@.threatens(t, x)),
            decreases operator.effects@.len() - e,
        {
            let threat = Threat { step: step_id, effect: e, link: link_index };
            let ghost before = out@;
            if self.threat_active(task, &threat) {
                out.push(threat);
                proof {
                    assert(out@[before.len() as int] == threat);
                    assert forall|x: Threat| #[trigger] out@.contains(x) <==> before.contains(x) || x == threat by {
                        if before.contains(x) {
                            let k = choose|k: int| 0 <= k < before.len() && before[k] == x;
                            assert(out@[k] == x);
                        }
                    }
                }
            }
            assert forall|x: Threat| #[trigger] out@.contains(x) <==> start.contains(x) || (x.link == link_index && x.step == step_id
                && x.effect < e + 1 && self@.threatens(t, x)) by {
                if x.link == link_index && x.step == step_id && x.effect == e {
                    assert(x == threat);
                }
            }
            e = e + 1;
        }
        proof {
            assert(self@.effects(t, step_id as int) == operator@.effects);
        }
    }

    /// Scans every link and step for threats.
    pub fn rediscover_threats(&self, task: &Task) -> (res: Vec<Threat>)
        requires
            task.wf(),
            self.sound(task@),
        ensures
            self@.discovers(task@, res@),
            res@ == self@.threats(task@),
    {
        let ghost t = task@;
        let mut res: Vec<Threat> = Vec::new();
        let mut l: usize = 0;
        while l < self.links.len()
            invariant
                t == task@,
                task.wf(),
                self.sound(t),
                l <= self@.links.len(),
                in_discovery_order(res@),
                forall|k: int| 0 <= k < res@.len() ==> (#[trigger] res@[k]).link < l,
                forall|x: Threat| #[trigger] res@.contains(x) <==> x.link < l && self@.threatens(t, x),
            decreases self@.links.len() - l,
        {
            let mut s: usize = 0;
            while s < self.steps.len()
                invariant
                    t == task@,
                    task.wf(),
                    self.sound(t),
                    l < self@.links.len(),
                    s <= self@.steps.len(),
                    in_discovery_order(res@),
                    forall|k: int|
                        0 <= k < res@.len() ==> (#[trigger] res@[k]).link < l || (res@[k].link == l && res@[k].step <= s),
                    forall|x: Threat| #[trigger]
                        res@.contains(x) <==> (x.link < l || (x.link == l && x.step <= s)) && self@.threatens(t, x),
                decreases self@.steps.len() - s,
            {
                let ghost before = res@;
                self.pair_threats(task, l, s + 1, &mut res);
                s = s + 1;
            }
            l = l + 1;
        }
        proof {
            lemma_threats(self@, t, res@);
        }
        res
    }

    /// The listed threats that still are threats.
    fn active_threats(&self, task: &Task) -> (res: Vec<Threat>)
        requires
            task.wf(),
            self.sound(task@),
            in_discovery_order(self.threats@),
        ensures
            in_discovery_order(res@),
            forall|x: Threat| #[trigger] res@.contains(x) <==> self.threats@.contains(x) && self@.threatens(task@, x),
    {
        let ghost t = task@;
        let ghost all = self.threats@;
        let mut res: Vec<Threat> = Vec::new();
        let mut i: usize = 0;
        while i < self.threats.len()
            invariant
                t == task@,
                task.wf(),
                self.sound(t),
                all == self.threats@,
                in_discovery_order(all),
                i <= all.len(),
                in_discovery_order(res@),
                forall|k: int, m: int| 0 <= k < res@.len() && i <= m < all.len() ==> threat_less(#[trigger] res@[k], #[trigger] all[m]),
                forall|k: int| 0 <= k < res@.len() ==> all.contains(#[trigger] res@[k]) && self@.threatens(t, res@[k]),
                forall|k: int| 0 <= k < i && self@.threatens(t, all[k]) ==> res@.contains(#[trigger] all[k]),
            decreases all.len() - i,
        {
            let threat = self.threats[i];
            let ghost before = res@;
            if self.threat_active(task, &threat) {
                res.push(threat);
                assert(all.contains(all[i as int]));
                assert(res@[before.len() as int] == threat);
            }
            proof {
                assert forall|k: int| 0 <= k < i + 1 && self@.threatens(t, all[k]) implies res@.contains(#[trigger] all[k]) by {
                    if k < i {
                        let m = choose|m: int| 0 <= m < before.len() && before[m] == all[k];
                        assert(res@[m] == all[k]);
                    }
                }
            }
            i = i + 1;
        }
        proof {
            assert forall|x: Threat| #[trigger] res@.contains(x) <==> all.contains(x) && self@.threatens(t, x) by {
                if res@.contains(x) {
                    let k = choose|k: int| 0 <= k < res@.len() && res@[k] == x;
                    assert(all.contains(res@[k]));
                }
                if all.contains(x) && self@.threatens(t, x) {
                    let k = choose|k: int| 0 <= k < all.len() && all[k] == x;
                    assert(res@.contains(all[k]));
                }
            }
        }
        res
    }
}

/// The two plans differ in their lists of threats at most.
pub open spec fn same_but_threats(a: &PartialPlan, b: &PartialPlan) -> bool {
    &&& a.steps == b.steps
    &&& a.links == b.links
    &&& a.open_conditions == b.open_conditions
    &&& a.expanded == b.expanded
    &&& a.orderings == b.orderings
    &&& a.cost == b.cost
    &&& a.next_step_id == b.next_step_id
    &&& a.id == b.id
}

/// The list holds the threats of `q` among the links and steps of `p`.
proof fn lemma_retained(t: TaskView, p: PlanView, q: PlanView, before: Seq<Threat>, after: Seq<Threat>)
    requires
        extends(p, q),
        p.discovers(t, before),
        forall|x: Threat| #[trigger] after.contains(x) <==> before.contains(x) && q.threatens(t, x),
    ensures
        forall|x: Threat| #[trigger]
            after.contains(x) <==> x.link < p.links.len() && x.step <= p.steps.len() && q.threatens(t, x),
{
    assert forall|x: Threat| #[trigger] after.contains(x) <==> x.link < p.links.len() && x.step <= p.steps.len() && q.threatens(
        t,
        x,
    ) by {
        if after.contains(x) {
            assert(before.contains(x));
            assert(p.threatens(t, x));
        }
        if x.link < p.links.len() && x.step <= p.steps.len() && q.threatens(t, x) {
            lemma_no_new_threat(t, p, q, x);
            assert(before.contains(x));
        }
    }
}

impl PartialPlan {
    /// Drops what is listed and no threat any more.
    fn retain_active_threats(&mut self, task: &Task)
        requires
            task.wf(),
            old(self).sound(task@),
            in_discovery_order(old(self).threats@),
        ensures
            same_but_threats(final(self), old(self)),
            in_discovery_order(final(self).threats@),
            forall|x: Threat| #[trigger]
                final(self).threats@.contains(x) <==> old(self).threats@.contains(x) && old(self)@.threatens(task@, x),
    {
        let active = self.active_threats(task);
        self.threats = Rc::new(active);
    }

    /// Adds the threats to the last link.
    fn add_link_threats(&mut self, task: &Task, link_index: usize)
        requires
            task.wf(),
            old(self).sound(task@),
            link_index + 1 == old(self)@.links.len(),
            in_discovery_order(old(self).threats@),
            forall|x: Threat| #[trigger] old(self).threats@.contains(x) ==> x.link < link_index,
        ensures
            same_but_threats(final(self), old(self)),
            in_discovery_order(final(self).threats@),
            forall|x: Threat| #[trigger]
                final(self).threats@.contains(x) <==> old(self).threats@.contains(x) || (x.link == link_index
                    && old(self)@.threatens(task@, x)),
    {
        let ghost t = task@;
        let ghost start = self.threats@;
        let mut out = copy_vec(&*self.threats);
        let mut s: usize = 0;
        proof {
            assert forall|k: int| 0 <= k < out@.len() implies (#[trigger] out@[k]).link < link_index by {
                assert(start.contains(out@[k]));
            }
        }
        while s < self.steps.len()
            invariant
                t == task@,
                task.wf(),
                self.sound(t),
                *self == *old(self),
                start == old(self).threats@,
                link_index + 1 == self@.links.len(),
                s <= self@.steps.len(),
                in_discovery_order(out@),
                forall|k: int|
                    0 <= k < out@.len() ==> (#[trigger] out@[k]).link < link_index || (out@[k].link == link_index && out@[k].step <= s),
                forall|x: Threat| #[trigger]
                    out@.contains(x) <==> start.contains(x) || (x.link == link_index && x.step <= s && self@.threatens(t, x)),
            decreases self@.steps.len() - s,
        {
            self.pair_threats(task, link_index, s + 1, &mut out);
            s = s + 1;
        }
        self.threats = Rc::new(out);
    }

    /// Adds the threats of the step, at their places in the discovery order.
    fn add_step_threats(&mut self, task: &Task, step_id: usize)
        requires
            task.wf(),
            old(self).sound(task@),
            old(self)@.is_step(step_id as int),
            in_discovery_order(old(self).threats@),
            forall|x: Threat| #[trigger] old(self).threats@.contains(x) ==> x.step != step_id,
        ensures
            same_but_threats(final(self), old(self)),
            in_discovery_order(final(self).threats@),
            forall|x: Threat| #[trigger]
                final(self).threats@.contains(x) <==> old(self).threats@.contains(x) || (x.step == step_id && old(self)@.threatens(
                    task@,
                    x,
                )),
    {
        let ghost t = task@;
        let mut additions: Vec<Threat> = Vec::new();
        let mut l: usize = 0;
        while l < self.links.len()
            invariant
                t == task@,
                task.wf(),
                self.sound(t),
                *self == *old(self),
                self@.is_step(step_id as int),
                l <= self@.links.len(),
                in_discovery_order(additions@),
                forall|k: int| 0 <= k < additions@.len() ==> (#[trigger] additions@[k]).link < l && additions@[k].step == step_id,
                forall|x: Threat| #[trigger] additions@.contains(x) <==> x.link < l && x.step == step_id && self@.threatens(t, x),
            decreases self@.links.len() - l,
        {
            let ghost before = additions@;
            self.pair_threats(task, l, step_id, &mut additions);
            proof {
                assert forall|k: int| 0 <= k < additions@.len() implies (#[trigger] additions@[k]).link < l + 1 && additions@[k].step
                    == step_id by {
                    assert(additions@.contains(additions@[k]));
                }
            }
            l = l + 1;
        }
        let merged = merge_threats(&*self.threats, &additions);
        self.threats = Rc::new(merged);
    }

    /// The open conditions without the one at `at`, then the given ones for the consumer.
    fn opens_after(&self, at: usize) -> (res: Vec<OpenCondition>)
        requires
            at < self@.opens.len(),
        ensures
            res@ == without(self@.opens, at as int),
    {
        let mut opens = copy_vec(&*self.open_conditions);
        let _ = opens.swap_remove(at);
        opens
    }
}

/// Adds the condition unless it is there.
fn push_open(opens: &mut Vec<OpenCondition>, open: OpenCondition)
    ensures
        final(opens)@ == with_open(old(opens)@, open),
{
    let mut i: usize = 0;
    while i < opens.len()
        invariant
            i <= opens@.len(),
            opens@ == old(opens)@,
            forall|k: int| 0 <= k < i ==> #[trigger] opens@[k] != open,
        decreases opens@.len() - i,
    {
        if opens[i] == open {
            assert(opens@.contains(open));
            return;
        }
        i = i + 1;
    }
    opens.push(open);
}

/// Adds the conditions for the consumer.
fn push_opens(opens: &mut Vec<OpenCondition>, consumer: usize, conditions: &Vec<Fact>)
    ensures
        final(opens)@ == with_opens(old(opens)@, consumer, conditions@, conditions@.len()),
{
    let mut i: usize = 0;
    while i < conditions.len()
        invariant
            i <= conditions@.len(),
            opens@ == with_opens(old(opens)@, consumer, conditions@, i as nat),
        decreases conditions@.len() - i,
    {
        push_open(opens, OpenCondition { consumer, condition: conditions[i] });
        i = i + 1;
    }
}

impl PartialPlan {
    /// The plan with `before` ordered before `after`; `None` if that makes a cycle.
    pub fn order(&self, task: &Task, before: usize, after: usize) -> (res: Option<PartialPlan>)
        requires
            task.wf(),
            self.wf(task@),
            self@.is_step(before as int) || before == INIT_ID,
            self@.is_step(after as int) || after == GOAL_ID,
        ensures
            match res {
                Some(child) => child.wf(task@) && self@.ordered_with(before as int, after as int) == Some(child@) && child.id == self.id,
                None => self@.ordered_with(before as int, after as int) is None,
            },
    {
        let ghost t = task@;
        proof {
            lemma_ordered_with(t, self@, before as int, after as int);
            assert(self@.order.contains((before as int, after as int)) == self.orderings.ordered(before as int, after as int));
            assert(self@.order.contains((after as int, before as int)) == self.orderings.ordered(after as int, before as int));
        }
        let orderings = match self.orderings.refine(StepOrder::new(before, StepTime::AtEnd, after, StepTime::AtStart)) {
            Some(o) => o,
            None => {
                return None;
            },
        };
        let mut child = self.clone();
        child.orderings = orderings;
        proof {
            lemma_refined_pairs(&*self.orderings, &*child.orderings, before as int, after as int);
            assert(self@.ordered_with(before as int, after as int)->0 =~= child@);
        }
        child.retain_active_threats(task);
        proof {
            lemma_retained(t, self@, child@, self.threats@, child.threats@);
        }
        Some(child)
    }

    /// Supports the open condition at `at` by the producer, whose effect has the
    /// given conditions; `None` if the producer cannot precede the consumer.
    pub fn support(&self, task: &Task, at: usize, producer: usize, effect: Option<usize>, conditions: &Vec<Fact>) -> (res: Option<
        PartialPlan,
    >)
        requires
            task.wf(),
            self.wf(task@),
            at < self@.opens.len(),
            produces(task@, self@, producer, effect, self@.opens[at as int].condition),
            facts_in(task@.variables, conditions@),
            effect is None ==> conditions@.len() == 0,
        ensures
            match res {
                Some(child) => child.wf(task@) && self@.supported(at as int, producer, effect, conditions@) == Some(child@) && child.id
                    == self.id,
                None => self@.supported(at as int, producer, effect, conditions@) is None,
            },
    {
        let ghost t = task@;
        let open = self.open_conditions[at];
        let consumer = open.consumer;
        proof {
            assert(self@.open_in(t, self@.opens[at as int]));
            lemma_supported(t, self@, at as int, producer, effect, conditions@);
            assert(self@.order.contains((producer as int, consumer as int)) == self.orderings.ordered(producer as int, consumer as int));
            assert(self@.order.contains((consumer as int, producer as int)) == self.orderings.ordered(consumer as int, producer as int));
        }
        let orderings = match self.orderings.refine(StepOrder::new(producer, StepTime::AtEnd, consumer, StepTime::AtStart)) {
            Some(o) => o,
            None => {
                return None;
            },
        };
        let mut child = self.clone();
        child.orderings = orderings;
        let link_index = self.links.len();
        let mut links = copy_vec(&*self.links);
        links.push(CausalLink { producer, consumer, condition: open.condition, effect });
        child.links = Rc::new(links);
        let mut opens = self.opens_after(at);
        push_opens(&mut opens, producer, conditions);
        child.open_conditions = Rc::new(opens);
        proof {
            lemma_refined_pairs(&*self.orderings, &*child.orderings, producer as int, consumer as int);
            assert(self@.supported(at as int, producer, effect, conditions@)->0 =~= child@);
        }
        child.retain_active_threats(task);
        proof {
            lemma_retained(t, self@, child@, self.threats@, child.threats@);
        }
        child.add_link_threats(task, link_index);
        Some(child)
    }

    /// Supports the open condition at `at` by an effect of a new step with the
    /// operator, whose complete applicability condition is `preconditions`;
    /// `None` when no step id is left.
    pub fn add_step(
        &self,
        task: &Task,
        action_cost: ActionCost,
        at: usize,
        operator: usize,
        effect: usize,
        preconditions: &Vec<Fact>,
    ) -> (res: Option<PartialPlan>)
        requires
            task.wf(),
            self.wf(task@),
            at < self@.opens.len(),
            operator < task@.operators.len(),
            effect < task@.operators[operator as int].effects.len(),
            assignments(task@.operators[operator as int].effects)[effect as int] == self@.opens[at as int].condition,
            preconditions@ == preconditions_of(task@.operators[operator as int]),
            facts_in(task@.variables, preconditions@),
        ensures
            match res {
                Some(child) => child.wf(task@) && self@.stepped(task@, action_cost, at as int, operator, effect) == Some(child@) && child.id
                    == self.id,
                None => self@.stepped(task@, action_cost, at as int, operator, effect) is None,
            },
            res is None <==> self@.steps.len() + 1 > usize::MAX / 4,
    {
        let ghost t = task@;
        let open = self.open_conditions[at];
        let consumer = open.consumer;
        let new_id = self.next_step_id;
        proof {
            assert(self@.open_in(t, self@.opens[at as int]));
            lemma_stepped(t, action_cost, self@, at as int, operator, effect);
        }
        if new_id > usize::MAX / 4 {
            return None;
        }
        proof {
            lemma_pairs(&*self.orderings);
            assert(!self@.order.contains((new_id as int, consumer as int)));
            assert(!self@.order.contains((consumer as int, new_id as int)));
        }
        let orderings = match self.orderings.refine_with_step(
            StepOrder::new(new_id, StepTime::AtEnd, consumer, StepTime::AtStart),
            new_id,
        ) {
            Some(o) => o,
            None => {
                assert(false);
                return None;
            },
        };
        let op = &task.operators[operator];
        assert(t.operators[operator as int] == op@);
        let eff = &op.effects[effect];
        assert(op@.effects[effect as int] == eff@);
        let mut child = self.clone();
        child.orderings = orderings;
        child.next_step_id = new_id + 1;
        child.cost = self.cost.saturating_add(action_cost.resolve(op.cost));
        let mut steps = copy_vec(&*self.steps);
        steps.push(Step { id: new_id, operator });
        child.steps = Rc::new(steps);
        let link_index = self.links.len();
        let mut links = copy_vec(&*self.links);
        links.push(CausalLink { producer: new_id, consumer, condition: open.condition, effect: Some(effect) });
        child.links = Rc::new(links);
        let mut opens = self.opens_after(at);
        push_opens(&mut opens, new_id, preconditions);
        push_opens(&mut opens, new_id, &eff.conditions);
        child.open_conditions = Rc::new(opens);
        proof {
            lemma_refined_pairs(&*self.orderings, &*child.orderings, new_id as int, consumer as int);
            assert(self@.stepped(t, action_cost, at as int, operator, effect)->0 =~= child@);
        }
        child.retain_active_threats(task);
        proof {
            lemma_retained(t, self@, child@, self.threats@, child.threats@);
        }
        child.add_link_threats(task, link_index);
        proof {
            // The new step produces the new link, so it does not threaten it.
            assert forall|x: Threat| #[trigger] child.threats@.contains(x) implies x.step != new_id by {
                if x.link == link_index {
                    assert(child@.links[link_index as int].producer == new_id);
                }
            }
        }
        child.add_step_threats(task, new_id);
        Some(child)
    }

    /// Replaces the derived open condition at `at` by the facts of a support.
    pub fn expand(&self, task: &Task, at: usize, support: &Vec<Fact>) -> (res: PartialPlan)
        requires
            task.wf(),
            self.wf(task@),
            at < self@.opens.len(),
            facts_in(task@.variables, support@),
        ensures
            res.wf(task@),
            res@ == self@.expanded_to(at as int, support@),
            res.id == self.id,
    {
        let ghost t = task@;
        let open = self.open_conditions[at];
        proof {
            lemma_expanded(t, self@, at as int, support@);
        }
        let mut child = self.clone();
        let mut opens = self.opens_after(at);
        push_opens(&mut opens, open.consumer, support);
        child.open_conditions = Rc::new(opens);
        let mut expanded = copy_vec(&*self.expanded);
        expanded.push(open);
        child.expanded = Rc::new(expanded);
        assert(child@ =~= self@.expanded_to(at as int, support@));
        child.retain_active_threats(task);
        proof {
            lemma_retained(t, self@, child@, self.threats@, child.threats@);
        }
        child
    }

    /// Commits the step to the fact.
    pub fn confront(&self, task: &Task, step: usize, fact: Fact) -> (res: PartialPlan)
        requires
            task.wf(),
            self.wf(task@),
            self@.is_step(step as int),
            fact_in(task@.variables, fact),
        ensures
            res.wf(task@),
            res@ == self@.confronted(step, fact),
            res.id == self.id,
    {
        let ghost t = task@;
        proof {
            lemma_confronted(t, self@, step, fact);
        }
        let mut child = self.clone();
        let mut opens = copy_vec(&*self.open_conditions);
        push_open(&mut opens, OpenCondition { consumer: step, condition: fact });
        child.open_conditions = Rc::new(opens);
        assert(child@ =~= self@.confronted(step, fact));
        child.retain_active_threats(task);
        proof {
            lemma_retained(t, self@, child@, self.threats@, child.threats@);
        }
        child
    }
}

} // verus!
