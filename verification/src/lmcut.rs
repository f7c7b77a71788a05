//! Native landmark-cut evaluation over a delete-relaxed finite-domain task.
//!
//! Facts are propositionized finite-domain equalities. Different values of one
//! SAS+ variable may therefore coexist in the relaxed fact set, as usual for
//! delete-relaxation heuristics. The evaluator accepts node-specific initial
//! facts and goals so one preprocessed operator graph can serve every POCL node.
use vstd::prelude::*;

use crate::text::copy_vec;

verus! {

/// The cost of a fact that is not reached.
pub const UNREACHED: u32 = u32::MAX;

/// An action of the delete relaxation.
#[derive(Debug)]
pub struct RelaxedAction {
    preconditions: Vec<usize>,
    effects: Vec<usize>,
    cost: u32,
}

pub struct ActionView {
    pub pre: Seq<usize>,
    pub add: Seq<usize>,
    pub cost: u32,
}

impl View for RelaxedAction {
    type V = ActionView;

    closed spec fn view(&self) -> ActionView {
        ActionView { pre: self.preconditions@, add: self.effects@, cost: self.cost }
    }
}

impl RelaxedAction {
    pub fn new(preconditions: Vec<usize>, effects: Vec<usize>, cost: u32) -> (res: Self)
        ensures
            res@ == (ActionView { pre: preconditions@, add: effects@, cost }),
    {
        RelaxedAction { preconditions, effects, cost }
    }
}

// ---------------------------------------------------------------------------
// Relaxed reachability, plans and cuts
// ---------------------------------------------------------------------------

/// All the preconditions of the action are in the set.
pub open spec fn enabled(act: ActionView, facts: Set<usize>) -> bool {
    forall|i: int| 0 <= i < act.pre.len() ==> facts.contains(#[trigger] act.pre[i])
}

/// An admitted action is enabled and adds the fact.
pub open spec fn added(acts: Seq<ActionView>, ok: spec_fn(int) -> bool, facts: Set<usize>, fact: usize) -> bool {
    exists|a: int| 0 <= a < acts.len() && ok(a) && enabled(#[trigger] acts[a], facts) && acts[a].add.contains(fact)
}

/// The facts reached from `initial` in at most `n` layers of actions that `ok` admits.
pub open spec fn layer(acts: Seq<ActionView>, ok: spec_fn(int) -> bool, initial: Seq<usize>, n: nat) -> Set<usize>
    decreases n,
{
    if n == 0 {
        Set::new(|f: usize| initial.contains(f))
    } else {
        let before = layer(acts, ok, initial, (n - 1) as nat);
        Set::new(|f: usize| before.contains(f) || added(acts, ok, before, f))
    }
}

/// The fact is reached from `initial`, ignoring deletes, by actions that `ok` admits.
pub open spec fn reachable(acts: Seq<ActionView>, ok: spec_fn(int) -> bool, initial: Seq<usize>, fact: usize) -> bool {
    exists|n: nat| #[trigger] layer(acts, ok, initial, n).contains(fact)
}

pub open spec fn any_action() -> spec_fn(int) -> bool {
    |a: int| true
}

proof fn lemma_layer_grows(acts: Seq<ActionView>, ok: spec_fn(int) -> bool, initial: Seq<usize>, n: nat, m: nat, fact: usize)
    requires
        layer(acts, ok, initial, n).contains(fact),
        n <= m,
    ensures
        layer(acts, ok, initial, m).contains(fact),
    decreases m - n,
{
    if n < m {
        lemma_layer_grows(acts, ok, initial, n, (m - 1) as nat, fact);
    }
}

/// Facts that are reached are reached in one common layer.
proof fn lemma_common_layer(acts: Seq<ActionView>, ok: spec_fn(int) -> bool, initial: Seq<usize>, facts: Seq<usize>) -> (n: nat)
    requires
        forall|i: int| 0 <= i < facts.len() ==> reachable(acts, ok, initial, #[trigger] facts[i]),
    ensures
        forall|i: int| 0 <= i < facts.len() ==> layer(acts, ok, initial, n).contains(#[trigger] facts[i]),
    decreases facts.len(),
{
    if facts.len() == 0 {
        0
    } else {
        let rest = facts.drop_last();
        assert forall|i: int| 0 <= i < rest.len() implies reachable(acts, ok, initial, #[trigger] rest[i]) by {
            assert(rest[i] == facts[i]);
        }
        let m = lemma_common_layer(acts, ok, initial, rest);
        assert(reachable(acts, ok, initial, facts[facts.len() - 1]));
        let k = choose|k: nat| #[trigger] layer(acts, ok, initial, k).contains(facts.last());
        let n = if m > k {
            m
        } else {
            k
        };
        assert forall|i: int| 0 <= i < facts.len() implies layer(acts, ok, initial, n).contains(#[trigger] facts[i]) by {
            if i < rest.len() {
                assert(rest[i] == facts[i]);
                lemma_layer_grows(acts, ok, initial, m, n, facts[i]);
            } else {
                lemma_layer_grows(acts, ok, initial, k, n, facts[i]);
            }
        }
        n
    }
}

/// What an admitted action with reached preconditions adds is reached.
proof fn lemma_reach_step(acts: Seq<ActionView>, ok: spec_fn(int) -> bool, initial: Seq<usize>, a: int, fact: usize)
    requires
        0 <= a < acts.len(),
        ok(a),
        forall|i: int| 0 <= i < acts[a].pre.len() ==> reachable(acts, ok, initial, #[trigger] acts[a].pre[i]),
        acts[a].add.contains(fact),
    ensures
        reachable(acts, ok, initial, fact),
{
    let n = lemma_common_layer(acts, ok, initial, acts[a].pre);
    assert(enabled(acts[a], layer(acts, ok, initial, n)));
    assert(added(acts, ok, layer(acts, ok, initial, n), fact));
    assert(layer(acts, ok, initial, n + 1).contains(fact));
}

/// The facts after the first `k` actions of a relaxed plan.
pub open spec fn facts_after(acts: Seq<ActionView>, initial: Seq<usize>, plan: Seq<int>, k: nat) -> Set<usize>
    decreases k,
{
    if k == 0 {
        Set::new(|f: usize| initial.contains(f))
    } else {
        let before = facts_after(acts, initial, plan, (k - 1) as nat);
        Set::new(|f: usize| before.contains(f) || acts[plan[k - 1]].add.contains(f))
    }
}

/// A relaxed plan: each action is enabled when its turn comes, and all the goals
/// are reached in the end.
pub open spec fn relaxed_plan(acts: Seq<ActionView>, initial: Seq<usize>, goals: Seq<usize>, plan: Seq<int>) -> bool {
    &&& forall|k: int|
        0 <= k < plan.len() ==> 0 <= #[trigger] plan[k] < acts.len() && enabled(
            acts[plan[k]],
            facts_after(acts, initial, plan, k as nat),
        )
    &&& forall|i: int| 0 <= i < goals.len() ==> facts_after(acts, initial, plan, plan.len()).contains(#[trigger] goals[i])
}

pub open spec fn plan_cost(acts: Seq<ActionView>, plan: Seq<int>) -> nat
    decreases plan.len(),
{
    if plan.len() == 0 {
        0
    } else {
        plan_cost(acts, plan.drop_last()) + acts[plan.last()].cost as nat
    }
}

/// A set of actions and the cost that is charged for needing one of them.
pub struct Cut {
    pub actions: Set<int>,
    pub cost: nat,
}

/// What is left of the action's cost once the cuts have been charged.
pub open spec fn residual(acts: Seq<ActionView>, cuts: Seq<Cut>, a: int) -> int
    decreases cuts.len(),
{
    if cuts.len() == 0 {
        acts[a].cost as int
    } else {
        residual(acts, cuts.drop_last(), a) - (if cuts.last().actions.contains(a) {
            cuts.last().cost as int
        } else {
            0
        })
    }
}

pub open spec fn cut_total(cuts: Seq<Cut>) -> nat
    decreases cuts.len(),
{
    if cuts.len() == 0 {
        0
    } else {
        cut_total(cuts.drop_last()) + cuts.last().cost
    }
}

/// Whether a fact costs at most `c` by h_max in at most `n` rounds: it is initial, or an
/// action adds it whose own cost is left over when all its preconditions cost at most
/// the rest.
pub open spec fn costs_within(acts: Seq<ActionView>, rc: Seq<u32>, initial: Seq<usize>, f: usize, c: int, n: nat) -> bool
    decreases n,
{
    c >= 0 && (initial.contains(f) || (n > 0 && exists|a: int|
        {
            &&& 0 <= a < acts.len()
            &&& (#[trigger] acts[a]).add.contains(f)
            &&& rc[a] <= c
            &&& forall|i: int|
                0 <= i < acts[a].pre.len() ==> costs_within(acts, rc, initial, #[trigger] acts[a].pre[i], c - rc[a], (n - 1) as nat)
        }))
}

/// Whether a fact costs at most `c` by h_max.
pub open spec fn costs_at_most(acts: Seq<ActionView>, rc: Seq<u32>, initial: Seq<usize>, f: usize, c: int) -> bool {
    exists|n: nat| #[trigger] costs_within(acts, rc, initial, f, c, n)
}

/// Whether the costs are the h_max values of the facts under the given action costs:
/// the least that they cost, as far as that is below the mark for unreached facts.
pub open spec fn is_hmax(acts: Seq<ActionView>, rc: Seq<u32>, initial: Seq<usize>, costs: Seq<u32>) -> bool {
    forall|f: int|
        0 <= f < costs.len() ==> {
            &&& #[trigger] costs[f] != UNREACHED ==> costs_at_most(acts, rc, initial, f as usize, costs[f] as int)
            &&& forall|c: int| #[trigger] costs_at_most(acts, rc, initial, f as usize, c) ==> costs[f] <= c
        }
}

/// Whether a fact at a cost leaves the queue no later than another one at its cost:
/// the cheaper one does, and of equally cheap ones the one with the lower number.
pub open spec fn comes_first(c: int, f: usize, d: int, g: usize) -> bool {
    c < d || (c == d && f <= g)
}

/// Whether `p` is the last of the facts in the order.
pub open spec fn is_last_of(order: Seq<usize>, facts: Seq<usize>, p: usize) -> bool {
    exists|j: int|
        {
            &&& 0 <= j < order.len()
            &&& #[trigger] order[j] == p
            &&& forall|i: int| 0 <= i < facts.len() ==> order.take(j + 1).contains(#[trigger] facts[i])
        }
}

/// A round of LM-cut: the costs left, their h_max values, the order in which the facts
/// are settled, the deciding precondition of each action, and the goal that the cut is
/// made for.
pub struct Round {
    pub acts: Seq<ActionView>,
    pub rc: Seq<u32>,
    pub initial: Seq<usize>,
    pub costs: Seq<u32>,
    pub settled: Seq<usize>,
    pub deciding: Seq<Option<usize>>,
    pub goal: usize,
}

impl Round {
    /// What an action costs together with its deciding precondition.
    pub open spec fn arrival(self, a: int) -> int {
        self.rc[a] + (match self.deciding[a] {
            Some(p) => self.costs[p as int] as int,
            None => 0,
        })
    }

    /// Whether all preconditions of an action are among the first `k` settled facts.
    pub open spec fn ready(self, a: int, k: int) -> bool {
        forall|i: int| 0 <= i < self.acts[a].pre.len() ==> self.settled.take(k).contains(#[trigger] self.acts[a].pre[i])
    }

    /// Whether a fact has been queued at a cost when `k` facts are settled: the initial
    /// facts for free, and what the actions that are ready add.
    pub open spec fn queued(self, k: int, f: usize, c: int) -> bool {
        ||| self.initial.contains(f) && c == 0
        ||| exists|a: int|
            0 <= a < self.acts.len() && #[trigger] self.acts[a].add.contains(f) && self.ready(a, k) && c == self.arrival(a)
    }

    /// Whether the fact settled behind the first `k` is the first in the queue.
    pub open spec fn is_next(self, k: int) -> bool {
        let next = self.settled[k];
        &&& self.queued(k, next, self.costs[next as int] as int)
        &&& forall|f: usize, c: int| #[trigger]
            self.queued(k, f, c) && !self.settled.take(k).contains(f) ==> comes_first(self.costs[next as int] as int, next, c, f)
    }

    /// Whether the facts are settled in the order of the queue: each once, and all that
    /// have a cost.
    pub open spec fn settles(self) -> bool {
        &&& self.settled.no_duplicates()
        &&& forall|f: usize| #[trigger] self.settled.contains(f) <==> f < self.costs.len() && self.costs[f as int] != UNREACHED
        &&& forall|k: int| 0 <= k < self.settled.len() ==> #[trigger] self.is_next(k)
    }

    /// The deciding precondition of a reached action is the one that is settled last, so
    /// that no other costs more.
    pub open spec fn decides(self) -> bool {
        &&& self.deciding.len() == self.acts.len()
        &&& forall|a: int|
            0 <= a < self.acts.len() ==> match #[trigger] self.deciding[a] {
                Some(p) => {
                    &&& self.acts[a].pre.contains(p) && self.costs[p as int] != UNREACHED
                    &&& is_last_of(self.settled, self.acts[a].pre, p)
                    &&& forall|i: int|
                        0 <= i < self.acts[a].pre.len() ==> self.costs[#[trigger] self.acts[a].pre[i] as int] <= self.costs[p as int]
                },
                None => self.acts[a].pre.len() == 0 || exists|i: int|
                    0 <= i < self.acts[a].pre.len() && self.costs[#[trigger] self.acts[a].pre[i] as int] == UNREACHED,
            }
    }

    /// Whether a fact is found on the goal plateau in `n` steps: the goal is, and so is
    /// the deciding precondition of a free action that adds a fact of it.
    pub open spec fn on_plateau(self, f: usize, n: nat) -> bool
        decreases n,
    {
        f == self.goal || (n > 0 && exists|a: int, g: usize|
            {
                &&& 0 <= a < self.acts.len()
                &&& #[trigger] self.acts[a].add.contains(g)
                &&& self.rc[a] == 0
                &&& self.deciding[a] == Some(f)
                &&& self.on_plateau(g, (n - 1) as nat)
            })
    }

    /// The goal plateau.
    pub open spec fn zone(self, f: usize) -> bool {
        exists|n: nat| #[trigger] self.on_plateau(f, n)
    }

    /// Whether an action adds a fact of the goal plateau.
    pub open spec fn arrives(self, a: int) -> bool {
        exists|f: usize| #[trigger] self.acts[a].add.contains(f) && self.zone(f)
    }

    /// Whether a fact is found in the region before the plateau in `n` steps: initial
    /// facts off the plateau are, and so is what an action adds whose deciding
    /// precondition is, unless it adds a fact of the plateau.
    pub open spec fn before_plateau(self, f: usize, n: nat) -> bool
        decreases n,
    {
        (self.initial.contains(f) && !self.zone(f)) || (n > 0 && exists|a: int|
            {
                &&& 0 <= a < self.acts.len()
                &&& (#[trigger] self.acts[a]).add.contains(f)
                &&& !self.arrives(a)
                &&& match self.deciding[a] {
                    Some(p) => self.before_plateau(p, (n - 1) as nat),
                    None => self.acts[a].pre.len() == 0,
                }
            })
    }

    /// The region before the goal plateau.
    pub open spec fn region(self, f: usize) -> bool {
        exists|n: nat| #[trigger] self.before_plateau(f, n)
    }

    /// Whether an action starts from the region.
    pub open spec fn departs(self, a: int) -> bool {
        match self.deciding[a] {
            Some(p) => self.region(p),
            None => self.acts[a].pre.len() == 0,
        }
    }

    /// The cut: the actions that cost something and lead from the region before the
    /// plateau to the plateau.
    pub open spec fn cut(self) -> Set<int> {
        Set::new(|a: int| 0 <= a < self.acts.len() && self.rc[a] > 0 && self.departs(a) && self.arrives(a))
    }
}

/// Whether a goal is the first of the dearest.
pub open spec fn is_dearest(goals: Seq<usize>, costs: Seq<u32>, goal: usize) -> bool {
    exists|i: int|
        {
            &&& 0 <= i < goals.len()
            &&& #[trigger] goals[i] == goal
            &&& forall|k: int| 0 <= k < goals.len() ==> costs[#[trigger] goals[k] as int] <= costs[goal as int]
            &&& forall|k: int| 0 <= k < i ==> costs[#[trigger] goals[k] as int] < costs[goal as int]
        }
}

/// Whether this is a round for the given costs and goals, one of which costs something.
pub open spec fn is_round(r: Round, acts: Seq<ActionView>, rc: Seq<u32>, initial: Seq<usize>, goals: Seq<usize>) -> bool {
    &&& r.acts == acts
    &&& r.rc == rc
    &&& r.initial == initial
    &&& actions_in(acts, r.costs.len())
    &&& below(initial, r.costs.len())
    &&& below(goals, r.costs.len())
    &&& is_hmax(acts, rc, initial, r.costs)
    &&& r.settles()
    &&& r.decides()
    &&& is_dearest(goals, r.costs, r.goal)
    &&& 0 < r.costs[r.goal as int] < UNREACHED
}

/// Whether the actions are an LM-cut under the given costs.
pub open spec fn is_lm_cut(acts: Seq<ActionView>, rc: Seq<u32>, initial: Seq<usize>, goals: Seq<usize>, actions: Set<int>) -> bool {
    exists|r: Round| #[trigger] is_round(r, acts, rc, initial, goals) && actions == r.cut()
}

/// What is left of the costs of all actions.
pub open spec fn residuals(acts: Seq<ActionView>, cuts: Seq<Cut>) -> Seq<u32> {
    Seq::new(acts.len(), |a: int| residual(acts, cuts, a) as u32)
}

/// A cut is an LM-cut under what is left of the costs. It charges a positive cost,
/// exactly the least that is left among its actions.
pub open spec fn cut_in_turn(acts: Seq<ActionView>, initial: Seq<usize>, goals: Seq<usize>, cuts: Seq<Cut>, k: int) -> bool {
    let before = cuts.take(k);
    let cut = cuts[k];
    &&& cut.cost > 0
    &&& is_lm_cut(acts, residuals(acts, before), initial, goals, cut.actions)
    &&& forall|a: int| #[trigger] cut.actions.contains(a) ==> 0 <= a < acts.len() && residual(acts, before, a) >= cut.cost
    &&& exists|a: int| #[trigger] cut.actions.contains(a) && residual(acts, before, a) == cut.cost
}

/// The cuts are charged one after the other, until the goals can be reached by
/// actions of which nothing is left.
pub open spec fn cut_sequence(acts: Seq<ActionView>, initial: Seq<usize>, goals: Seq<usize>, cuts: Seq<Cut>) -> bool {
    &&& forall|k: int| 0 <= k < cuts.len() ==> #[trigger] cut_in_turn(acts, initial, goals, cuts, k)
    &&& forall|i: int|
        0 <= i < goals.len() ==> reachable(acts, free_after(acts, cuts), initial, #[trigger] goals[i])
}

/// The actions of which nothing is left.
pub open spec fn free_after(acts: Seq<ActionView>, cuts: Seq<Cut>) -> spec_fn(int) -> bool {
    |a: int| residual(acts, cuts, a) == 0
}

// ---------------------------------------------------------------------------
// Admissibility
// ---------------------------------------------------------------------------

/// What the first `k` actions of a plan cost.
pub open spec fn spent(rc: Seq<u32>, plan: Seq<int>, k: nat) -> int
    decreases k,
{
    if k == 0 {
        0
    } else {
        spent(rc, plan, (k - 1) as nat) + rc[plan[k - 1]]
    }
}

proof fn lemma_spent_grows(rc: Seq<u32>, plan: Seq<int>, k: nat, m: nat)
    requires
        k <= m,
    ensures
        0 <= spent(rc, plan, k) <= spent(rc, plan, m),
    decreases m,
{
    if k < m {
        lemma_spent_grows(rc, plan, k, (m - 1) as nat);
    } else if k > 0 {
        lemma_spent_grows(rc, plan, (k - 1) as nat, (k - 1) as nat);
    }
}

/// What a plan reaches costs no more by h_max than the plan.
proof fn lemma_plan_costs(acts: Seq<ActionView>, rc: Seq<u32>, initial: Seq<usize>, goals: Seq<usize>, plan: Seq<int>, k: nat, f: usize)
    requires
        relaxed_plan(acts, initial, goals, plan),
        k <= plan.len(),
        facts_after(acts, initial, plan, k).contains(f),
    ensures
        costs_at_most(acts, rc, initial, f, spent(rc, plan, k)),
    decreases k,
{
    if k == 0 {
        assert(costs_within(acts, rc, initial, f, 0, 0));
    } else {
        let before = facts_after(acts, initial, plan, (k - 1) as nat);
        let a = plan[k - 1];
        let c = spent(rc, plan, (k - 1) as nat);
        lemma_spent_grows(rc, plan, (k - 1) as nat, (k - 1) as nat);
        if before.contains(f) {
            lemma_plan_costs(acts, rc, initial, goals, plan, (k - 1) as nat, f);
            lemma_costs_more(acts, rc, initial, f, c, c + rc[a]);
        } else {
            assert(enabled(acts[a], before));
            assert forall|i: int| 0 <= i < acts[a].pre.len() implies costs_at_most(acts, rc, initial, #[trigger] acts[a].pre[i], c) by {
                lemma_plan_costs(acts, rc, initial, goals, plan, (k - 1) as nat, acts[a].pre[i]);
            }
            lemma_costs_step(acts, rc, initial, a, f, c);
        }
    }
}

/// The h_max value of a fact is the least that it costs.
proof fn lemma_cheapest(costs: Seq<u32>, acts: Seq<ActionView>, rc: Seq<u32>, initial: Seq<usize>, f: usize, c: int)
    requires
        is_hmax(acts, rc, initial, costs),
        f < costs.len(),
        costs_at_most(acts, rc, initial, f, c),
    ensures
        costs[f as int] <= c,
{
    let g = f as int;
    assert(costs[g] <= c);
}

/// Facts on the plateau cost something.
proof fn lemma_zone_costs(r: Round, acts: Seq<ActionView>, rc: Seq<u32>, initial: Seq<usize>, goals: Seq<usize>, f: usize, n: nat)
    requires
        is_round(r, acts, rc, initial, goals),
        r.on_plateau(f, n),
    ensures
        f < r.costs.len(),
        r.costs[f as int] > 0,
    decreases n,
{
    if f == r.goal {
        let i = choose|i: int| 0 <= i < goals.len() && #[trigger] goals[i] == r.goal;
        assert(goals[i] < r.costs.len());
    } else {
        let (a, g) = choose|a: int, g: usize|
            {
                &&& 0 <= a < acts.len()
                &&& #[trigger] acts[a].add.contains(g)
                &&& rc[a] == 0
                &&& r.deciding[a] == Some(f)
                &&& r.on_plateau(g, (n - 1) as nat)
            };
        lemma_zone_costs(r, acts, rc, initial, goals, g, (n - 1) as nat);
        assert(action_in(acts[a], r.costs.len()));
        assert(r.deciding[a] == Some(f));
        lemma_members_below(acts[a].pre, r.costs.len(), f);
        if r.costs[f as int] == 0 {
            assert forall|i: int| 0 <= i < acts[a].pre.len() implies costs_at_most(acts, rc, initial, #[trigger] acts[a].pre[i], 0) by {
                assert(acts[a].pre[i] < r.costs.len());
                assert(r.costs[acts[a].pre[i] as int] <= r.costs[f as int]);
            }
            lemma_costs_step(acts, rc, initial, a, g, 0);
            assert(r.costs[g as int] <= 0);
        }
    }
}

/// The region lies off the plateau.
proof fn lemma_region_off_zone(r: Round, f: usize)
    requires
        r.region(f),
    ensures
        !r.zone(f),
{
    let n = choose|n: nat| #[trigger] r.before_plateau(f, n);
    if !(r.initial.contains(f) && !r.zone(f)) {
        let a = choose|a: int|
            {
                &&& 0 <= a < r.acts.len()
                &&& (#[trigger] r.acts[a]).add.contains(f)
                &&& !r.arrives(a)
                &&& match r.deciding[a] {
                    Some(p) => r.before_plateau(p, (n - 1) as nat),
                    None => r.acts[a].pre.len() == 0,
                }
            };
        assert(r.acts[a].add.contains(f));
    }
}

/// Initial facts lie in the region.
proof fn lemma_initial_before(r: Round, acts: Seq<ActionView>, rc: Seq<u32>, initial: Seq<usize>, goals: Seq<usize>, f: usize)
    requires
        is_round(r, acts, rc, initial, goals),
        initial.contains(f),
    ensures
        r.region(f),
{
    if r.zone(f) {
        let n = choose|n: nat| #[trigger] r.on_plateau(f, n);
        lemma_zone_costs(r, acts, rc, initial, goals, f, n);
        assert(costs_within(acts, rc, initial, f, 0, 0));
        assert(costs_at_most(acts, rc, initial, f, 0));
        assert(r.costs[f as int] <= 0);
    }
    assert(r.before_plateau(f, 0));
}

/// Without an action of the cut the region is not left.
proof fn lemma_stays_before(r: Round, acts: Seq<ActionView>, rc: Seq<u32>, initial: Seq<usize>, goals: Seq<usize>, a: int, f: usize)
    requires
        is_round(r, acts, rc, initial, goals),
        0 <= a < acts.len(),
        !r.cut().contains(a),
        acts[a].add.contains(f),
        forall|i: int|
            0 <= i < acts[a].pre.len() ==> r.region(#[trigger] acts[a].pre[i]) && r.costs[acts[a].pre[i] as int] != UNREACHED,
    ensures
        r.region(f),
{
    match r.deciding[a] {
        Some(p) => {
            let i = choose|i: int| 0 <= i < acts[a].pre.len() && acts[a].pre[i] == p;
            assert(r.region(acts[a].pre[i]));
        },
        None => {},
    }
    assert(r.departs(a));
    if r.arrives(a) {
        let g = choose|g: usize| #[trigger] r.acts[a].add.contains(g) && r.zone(g);
        assert(rc[a] == 0);
        match r.deciding[a] {
            Some(p) => {
                lemma_climb(r, a, g, p);
                lemma_region_off_zone(r, p);
            },
            None => {
                let n = choose|n: nat| #[trigger] r.on_plateau(g, n);
                lemma_zone_costs(r, acts, rc, initial, goals, g, n);
                lemma_costs_step(acts, rc, initial, a, g, 0);
                assert(costs_at_most(acts, rc, initial, g, 0));
                assert(r.costs[g as int] <= 0);
            },
        }
    }
    lemma_entered(r, a, f);
}

/// A plan that avoids the cut and costs less than the mark stays in the region.
proof fn lemma_plan_before(
    r: Round,
    acts: Seq<ActionView>,
    rc: Seq<u32>,
    initial: Seq<usize>,
    goals: Seq<usize>,
    plan: Seq<int>,
    k: nat,
    f: usize,
)
    requires
        is_round(r, acts, rc, initial, goals),
        relaxed_plan(acts, initial, goals, plan),
        forall|i: int| 0 <= i < plan.len() ==> !r.cut().contains(#[trigger] plan[i]),
        spent(rc, plan, plan.len()) < UNREACHED,
        k <= plan.len(),
        facts_after(acts, initial, plan, k).contains(f),
    ensures
        r.region(f),
    decreases k,
{
    if k == 0 {
        lemma_initial_before(r, acts, rc, initial, goals, f);
    } else {
        let before = facts_after(acts, initial, plan, (k - 1) as nat);
        let a = plan[k - 1];
        if before.contains(f) {
            lemma_plan_before(r, acts, rc, initial, goals, plan, (k - 1) as nat, f);
        } else {
            assert(enabled(acts[a], before));
            assert(action_in(acts[a], r.costs.len()));
            assert forall|i: int| 0 <= i < acts[a].pre.len() implies r.region(#[trigger] acts[a].pre[i]) && r.costs[acts[a].pre[i] as int]
                != UNREACHED by {
                let p = acts[a].pre[i];
                lemma_plan_before(r, acts, rc, initial, goals, plan, (k - 1) as nat, p);
                lemma_plan_costs(acts, rc, initial, goals, plan, (k - 1) as nat, p);
                lemma_spent_grows(rc, plan, (k - 1) as nat, plan.len());
                assert(p < r.costs.len());
                lemma_cheapest(r.costs, acts, rc, initial, p, spent(rc, plan, (k - 1) as nat));
            }
            lemma_stays_before(r, acts, rc, initial, goals, a, f);
        }
    }
}

/// A relaxed plan uses an action of every LM-cut, unless it costs at least the mark for
/// unreached facts: the cuts are landmarks.
pub proof fn plans_meet_cuts(acts: Seq<ActionView>, rc: Seq<u32>, initial: Seq<usize>, goals: Seq<usize>, actions: Set<int>, plan: Seq<int>)
    requires
        is_lm_cut(acts, rc, initial, goals, actions),
        relaxed_plan(acts, initial, goals, plan),
    ensures
        spent(rc, plan, plan.len()) >= UNREACHED || exists|k: int| 0 <= k < plan.len() && actions.contains(#[trigger] plan[k]),
{
    let r = choose|r: Round| #[trigger] is_round(r, acts, rc, initial, goals) && actions == r.cut();
    if spent(rc, plan, plan.len()) < UNREACHED && forall|k: int| 0 <= k < plan.len() ==> !actions.contains(#[trigger] plan[k]) {
        let i = choose|i: int| 0 <= i < goals.len() && #[trigger] goals[i] == r.goal;
        assert(facts_after(acts, initial, plan, plan.len()).contains(goals[i]));
        lemma_plan_before(r, acts, rc, initial, goals, plan, plan.len(), r.goal);
        lemma_region_off_zone(r, r.goal);
        assert(r.on_plateau(r.goal, 0));
    }
}

/// Without a cut only facts of the region are reached below the mark.
proof fn lemma_derived_before(
    r: Round,
    acts: Seq<ActionView>,
    rc: Seq<u32>,
    initial: Seq<usize>,
    goals: Seq<usize>,
    f: usize,
    c: int,
    n: nat,
)
    requires
        is_round(r, acts, rc, initial, goals),
        forall|a: int| !r.cut().contains(a),
        costs_within(acts, rc, initial, f, c, n),
        c < UNREACHED,
    ensures
        r.region(f),
    decreases n,
{
    if initial.contains(f) {
        lemma_initial_before(r, acts, rc, initial, goals, f);
    } else {
        let a = choose|a: int|
            {
                &&& 0 <= a < acts.len()
                &&& (#[trigger] acts[a]).add.contains(f)
                &&& rc[a] <= c
                &&& forall|i: int|
                    0 <= i < acts[a].pre.len() ==> costs_within(acts, rc, initial, #[trigger] acts[a].pre[i], c - rc[a], (n - 1) as nat)
            };
        assert(action_in(acts[a], r.costs.len()));
        assert forall|i: int| 0 <= i < acts[a].pre.len() implies r.region(#[trigger] acts[a].pre[i]) && r.costs[acts[a].pre[i] as int]
            != UNREACHED by {
            let p = acts[a].pre[i];
            lemma_derived_before(r, acts, rc, initial, goals, p, c - rc[a], (n - 1) as nat);
            assert(p < r.costs.len());
            assert(costs_at_most(acts, rc, initial, p, c - rc[a]));
            lemma_cheapest(r.costs, acts, rc, initial, p, c - rc[a]);
        }
        lemma_stays_before(r, acts, rc, initial, goals, a, f);
    }
}

/// A round has a cut.
proof fn lemma_cut_exists(r: Round, acts: Seq<ActionView>, rc: Seq<u32>, initial: Seq<usize>, goals: Seq<usize>)
    requires
        is_round(r, acts, rc, initial, goals),
    ensures
        exists|a: int| r.cut().contains(a),
{
    if forall|a: int| !r.cut().contains(a) {
        let i = choose|i: int| 0 <= i < goals.len() && #[trigger] goals[i] == r.goal;
        assert(goals[i] < r.costs.len());
        let c = r.costs[r.goal as int] as int;
        assert(costs_at_most(acts, rc, initial, r.goal, c));
        let n = choose|n: nat| #[trigger] costs_within(acts, rc, initial, r.goal, c, n);
        lemma_derived_before(r, acts, rc, initial, goals, r.goal, c, n);
        lemma_region_off_zone(r, r.goal);
        assert(r.on_plateau(r.goal, 0));
    }
}

spec fn plan_residual(acts: Seq<ActionView>, cuts: Seq<Cut>, plan: Seq<int>) -> int
    decreases plan.len(),
{
    if plan.len() == 0 {
        0
    } else {
        plan_residual(acts, cuts, plan.drop_last()) + residual(acts, cuts, plan.last())
    }
}

/// Charging a cut lowers what is left of a plan's cost by the cut's cost at least
/// once for each of its actions that the plan uses.
proof fn lemma_charge(acts: Seq<ActionView>, cuts: Seq<Cut>, plan: Seq<int>)
    requires
        cuts.len() > 0,
    ensures
        plan_residual(acts, cuts, plan) <= plan_residual(acts, cuts.drop_last(), plan),
        (exists|k: int| 0 <= k < plan.len() && cuts.last().actions.contains(#[trigger] plan[k])) ==> plan_residual(acts, cuts, plan)
            + cuts.last().cost <= plan_residual(acts, cuts.drop_last(), plan),
    decreases plan.len(),
{
    if plan.len() > 0 {
        lemma_charge(acts, cuts, plan.drop_last());
        if exists|k: int| 0 <= k < plan.len() && cuts.last().actions.contains(#[trigger] plan[k]) {
            let k = choose|k: int| 0 <= k < plan.len() && cuts.last().actions.contains(#[trigger] plan[k]);
            if k < plan.len() - 1 {
                assert(cuts.last().actions.contains(plan.drop_last()[k]));
            }
        }
    }
}

proof fn lemma_residual_nonneg(acts: Seq<ActionView>, initial: Seq<usize>, goals: Seq<usize>, cuts: Seq<Cut>, n: nat, a: int)
    requires
        forall|k: int| 0 <= k < cuts.len() ==> #[trigger] cut_in_turn(acts, initial, goals, cuts, k),
        n <= cuts.len(),
        0 <= a < acts.len(),
    ensures
        0 <= residual(acts, cuts.take(n as int), a) <= acts[a].cost,
    decreases n,
{
    if n > 0 {
        lemma_residual_nonneg(acts, initial, goals, cuts, (n - 1) as nat, a);
        assert(cut_in_turn(acts, initial, goals, cuts, n - 1));
        assert(cuts.take(n as int).drop_last() =~= cuts.take(n - 1));
        assert(cuts.take(n as int).last() == cuts[n - 1]);
    }
}

proof fn lemma_plan_residual_nonneg(acts: Seq<ActionView>, initial: Seq<usize>, goals: Seq<usize>, cuts: Seq<Cut>, plan: Seq<int>)
    requires
        forall|k: int| 0 <= k < cuts.len() ==> #[trigger] cut_in_turn(acts, initial, goals, cuts, k),
        forall|k: int| 0 <= k < plan.len() ==> 0 <= #[trigger] plan[k] < acts.len(),
    ensures
        plan_residual(acts, cuts, plan) >= 0,
    decreases plan.len(),
{
    if plan.len() > 0 {
        assert forall|k: int| 0 <= k < plan.drop_last().len() implies 0 <= #[trigger] plan.drop_last()[k] < acts.len() by {
            assert(plan.drop_last()[k] == plan[k]);
        }
        lemma_plan_residual_nonneg(acts, initial, goals, cuts, plan.drop_last());
        assert(0 <= plan[plan.len() - 1] < acts.len());
        lemma_residual_nonneg(acts, initial, goals, cuts, cuts.len(), plan.last());
        assert(cuts.take(cuts.len() as int) =~= cuts);
    }
}

/// What is left of a plan's cost is what its actions cost under what is left of theirs.
proof fn lemma_residual_spent(acts: Seq<ActionView>, initial: Seq<usize>, goals: Seq<usize>, cuts: Seq<Cut>, n: nat, plan: Seq<int>, k: nat)
    requires
        forall|k: int| 0 <= k < cuts.len() ==> #[trigger] cut_in_turn(acts, initial, goals, cuts, k),
        n <= cuts.len(),
        k <= plan.len(),
        forall|k: int| 0 <= k < plan.len() ==> 0 <= #[trigger] plan[k] < acts.len(),
    ensures
        spent(residuals(acts, cuts.take(n as int)), plan, k) == plan_residual(acts, cuts.take(n as int), plan.take(k as int)),
    decreases k,
{
    if k > 0 {
        lemma_residual_spent(acts, initial, goals, cuts, n, plan, (k - 1) as nat);
        assert(plan.take(k as int).drop_last() =~= plan.take(k - 1));
        let a = plan[k - 1];
        lemma_residual_nonneg(acts, initial, goals, cuts, n, a);
        assert(residuals(acts, cuts.take(n as int))[a] == residual(acts, cuts.take(n as int), a));
    }
}

proof fn lemma_plan_charged(acts: Seq<ActionView>, initial: Seq<usize>, goals: Seq<usize>, cuts: Seq<Cut>, plan: Seq<int>, n: nat)
    requires
        relaxed_plan(acts, initial, goals, plan),
        forall|k: int| 0 <= k < cuts.len() ==> #[trigger] cut_in_turn(acts, initial, goals, cuts, k),
        n <= cuts.len(),
        plan_cost(acts, plan) < UNREACHED,
    ensures
        cut_total(cuts.take(n as int)) + plan_residual(acts, cuts.take(n as int), plan) <= plan_cost(acts, plan),
    decreases n,
{
    if n == 0 {
        assert(cuts.take(0) =~= Seq::<Cut>::empty());
        lemma_plan_residual_empty(acts, plan);
    } else {
        lemma_plan_charged(acts, initial, goals, cuts, plan, (n - 1) as nat);
        let now = cuts.take(n as int);
        let before = cuts.take(n - 1);
        assert(now.drop_last() =~= before);
        assert(now.last() == cuts[n - 1]);
        assert(cut_in_turn(acts, initial, goals, cuts, n - 1));
        lemma_residual_spent(acts, initial, goals, cuts, (n - 1) as nat, plan, plan.len());
        assert(plan.take(plan.len() as int) =~= plan);
        plans_meet_cuts(acts, residuals(acts, before), initial, goals, cuts[n - 1].actions, plan);
        lemma_charge(acts, now, plan);
        let k = choose|k: int| 0 <= k < plan.len() && cuts[n - 1].actions.contains(#[trigger] plan[k]);
        assert(now.last().actions.contains(plan[k]));
    }
}

proof fn lemma_plan_residual_empty(acts: Seq<ActionView>, plan: Seq<int>)
    ensures
        plan_residual(acts, Seq::<Cut>::empty(), plan) == plan_cost(acts, plan),
    decreases plan.len(),
{
    if plan.len() > 0 {
        lemma_plan_residual_empty(acts, plan.drop_last());
    }
}

/// A value as far as it is below the mark for unreached facts.
pub open spec fn capped(value: nat) -> u32 {
    if value < UNREACHED {
        value as u32
    } else {
        UNREACHED
    }
}

/// A landmark-cut value, as far as it can be told, never exceeds the cost of a relaxed
/// plan: it is an admissible estimate.
pub proof fn lm_cut_is_admissible(acts: Seq<ActionView>, initial: Seq<usize>, goals: Seq<usize>, cuts: Seq<Cut>, plan: Seq<int>)
    requires
        cut_sequence(acts, initial, goals, cuts),
        relaxed_plan(acts, initial, goals, plan),
    ensures
        capped(cut_total(cuts)) <= plan_cost(acts, plan),
{
    if plan_cost(acts, plan) < UNREACHED {
        lemma_plan_charged(acts, initial, goals, cuts, plan, cuts.len());
        assert(cuts.take(cuts.len() as int) =~= cuts);
        lemma_plan_residual_nonneg(acts, initial, goals, cuts, plan);
    }
}

/// The costs of the actions.
pub open spec fn own_costs(acts: Seq<ActionView>) -> Seq<u32> {
    Seq::new(acts.len(), |a: int| acts[a].cost)
}

/// Whether the h_max value of a fact under the costs of the actions is below the mark for
/// unreached facts.
pub open spec fn is_payable(acts: Seq<ActionView>, initial: Seq<usize>, f: usize) -> bool {
    costs_at_most(acts, own_costs(acts), initial, f, UNREACHED - 1)
}

proof fn lemma_within_layer(acts: Seq<ActionView>, rc: Seq<u32>, initial: Seq<usize>, f: usize, c: int, n: nat)
    requires
        costs_within(acts, rc, initial, f, c, n),
    ensures
        layer(acts, any_action(), initial, n).contains(f),
    decreases n,
{
    if initial.contains(f) {
        assert(layer(acts, any_action(), initial, 0).contains(f));
        lemma_layer_grows(acts, any_action(), initial, 0, n, f);
    } else {
        let a = choose|a: int|
            {
                &&& 0 <= a < acts.len()
                &&& (#[trigger] acts[a]).add.contains(f)
                &&& rc[a] <= c
                &&& forall|i: int|
                    0 <= i < acts[a].pre.len() ==> costs_within(acts, rc, initial, #[trigger] acts[a].pre[i], c - rc[a], (n - 1) as nat)
            };
        let before = layer(acts, any_action(), initial, (n - 1) as nat);
        assert forall|i: int| 0 <= i < acts[a].pre.len() implies before.contains(#[trigger] acts[a].pre[i]) by {
            lemma_within_layer(acts, rc, initial, acts[a].pre[i], c - rc[a], (n - 1) as nat);
        }
        assert(enabled(acts[a], before));
        assert(added(acts, any_action(), before, f));
    }
}

proof fn lemma_layer_costs(acts: Seq<ActionView>, rc: Seq<u32>, initial: Seq<usize>, f: usize, k: nat) -> (c: int)
    requires
        layer(acts, any_action(), initial, k).contains(f),
    ensures
        c == k * UNREACHED,
        costs_at_most(acts, rc, initial, f, c),
    decreases k,
{
    let c = k * UNREACHED;
    if k == 0 {
        assert(costs_within(acts, rc, initial, f, 0, 0));
    } else {
        let d = (k - 1) * UNREACHED;
        assert(c == d + UNREACHED && d >= 0) by (nonlinear_arith)
            requires
                k > 0,
                c == k * UNREACHED,
                d == (k - 1) * UNREACHED,
        ;
        let before = layer(acts, any_action(), initial, (k - 1) as nat);
        if before.contains(f) {
            let e = lemma_layer_costs(acts, rc, initial, f, (k - 1) as nat);
            lemma_costs_more(acts, rc, initial, f, e, c);
        } else {
            assert(added(acts, any_action(), before, f));
            let a = choose|a: int|
                0 <= a < acts.len() && any_action()(a) && enabled(#[trigger] acts[a], before) && acts[a].add.contains(f);
            assert forall|i: int| 0 <= i < acts[a].pre.len() implies costs_at_most(acts, rc, initial, #[trigger] acts[a].pre[i], d) by {
                let e = lemma_layer_costs(acts, rc, initial, acts[a].pre[i], (k - 1) as nat);
            }
            lemma_costs_step(acts, rc, initial, a, f, d);
            lemma_costs_more(acts, rc, initial, f, d + rc[a], c);
        }
    }
    c
}

/// A fact can be reached exactly if it has an h_max value; so a goal that cannot be
/// reached is not payable, and one that can be is, unless its value is beyond the mark.
pub proof fn reachable_facts_have_values(acts: Seq<ActionView>, rc: Seq<u32>, initial: Seq<usize>, f: usize)
    ensures
        reachable(acts, any_action(), initial, f) <==> exists|c: int| #[trigger] costs_at_most(acts, rc, initial, f, c),
{
    if reachable(acts, any_action(), initial, f) {
        let k = choose|k: nat| #[trigger] layer(acts, any_action(), initial, k).contains(f);
        let c = lemma_layer_costs(acts, rc, initial, f, k);
    }
    if exists|c: int| #[trigger] costs_at_most(acts, rc, initial, f, c) {
        let c = choose|c: int| #[trigger] costs_at_most(acts, rc, initial, f, c);
        let n = choose|n: nat| #[trigger] costs_within(acts, rc, initial, f, c, n);
        lemma_within_layer(acts, rc, initial, f, c, n);
    }
}

// ---------------------------------------------------------------------------
// The preprocessed operator graph
// ---------------------------------------------------------------------------

pub open spec fn strictly_ascending(s: Seq<usize>) -> bool {
    forall|i: int, j: int| 0 <= i < j < s.len() ==> #[trigger] s[i] < #[trigger] s[j]
}

/// Inserts `x` into an ascending list, unless it stands there.
fn put_number(v: &mut Vec<usize>, x: usize)
    requires
        strictly_ascending(old(v)@),
    ensures
        strictly_ascending(final(v)@),
        forall|y: usize| #[trigger] final(v)@.contains(y) <==> (y == x || old(v)@.contains(y)),
{
    let ghost before = v@;
    let mut k: usize = 0;
    while k < v.len() && v[k] < x
        invariant
            v@ == before,
            k <= before.len(),
            forall|i: int| 0 <= i < k ==> #[trigger] before[i] < x,
        decreases before.len() - k,
    {
        k = k + 1;
    }
    if k < v.len() && v[k] == x {
        assert(before[k as int] == x);
        return;
    }
    v.insert(k, x);
    proof {
        let now = v@;
        assert(now =~= before.insert(k as int, x));
        assert forall|i: int, j: int| 0 <= i < j < now.len() implies #[trigger] now[i] < #[trigger] now[j] by {
            if i < k && j > k {
                assert(before[i] < x);
            }
            if i == k {
                assert(now[j] == before[j - 1]);
                if j - 1 > k {
                    assert(before[k as int] < before[j - 1]);
                }
            } else if j == k {
                assert(before[i] < x);
            } else {
                let a = if i < k { i } else { i - 1 };
                let b = if j < k { j } else { j - 1 };
                assert(now[i] == before[a] && now[j] == before[b]);
            }
        }
        assert forall|y: usize| #[trigger] now.contains(y) <==> (y == x || before.contains(y)) by {
            if now.contains(y) {
                let i = choose|i: int| 0 <= i < now.len() && now[i] == y;
                if i < k {
                    assert(before[i] == y);
                } else if i > k {
                    assert(before[i - 1] == y);
                }
            }
            if y == x {
                assert(now[k as int] == y);
            }
            if before.contains(y) {
                let i = choose|i: int| 0 <= i < before.len() && before[i] == y;
                if i < k {
                    assert(now[i] == y);
                } else {
                    assert(now[i + 1] == y);
                }
            }
        }
    }
}

/// The numbers of `v`, ascending, each once.
fn ascending_numbers(v: &Vec<usize>) -> (res: Vec<usize>)
    ensures
        strictly_ascending(res@),
        forall|y: usize| #[trigger] res@.contains(y) <==> v@.contains(y),
{
    let mut res: Vec<usize> = Vec::new();
    let mut i: usize = 0;
    while i < v.len()
        invariant
            i <= v@.len(),
            strictly_ascending(res@),
            forall|y: usize| #[trigger] res@.contains(y) <==> v@.take(i as int).contains(y),
        decreases v@.len() - i,
    {
        let ghost before = v@.take(i as int);
        put_number(&mut res, v[i]);
        i = i + 1;
        proof {
            let now = v@.take(i as int);
            assert(now =~= before.push(v@[i - 1]));
            assert forall|y: usize| #[trigger] now.contains(y) <==> (y == v@[i - 1] || before.contains(y)) by {
                if before.contains(y) {
                    let k = choose|k: int| 0 <= k < before.len() && before[k] == y;
                    assert(now[k] == y);
                }
                if now.contains(y) {
                    let k = choose|k: int| 0 <= k < now.len() && now[k] == y;
                    if k < before.len() {
                        assert(before[k] == y);
                    }
                }
                assert(now[i - 1] == v@[i - 1]);
            }
            assert forall|y: usize| #[trigger] res@.contains(y) <==> now.contains(y) by {
                assert(before.contains(y) || y == v@[i - 1] <==> now.contains(y));
            }
        }
    }
    assert(v@.take(i as int) =~= v@);
    res
}

/// Why no operator graph could be built.
#[derive(Debug)]
pub enum BuildError {
    ConditionalEffects { operator: String },
    ActionCostTooLarge { operator: String, cost: usize },
    InvalidFact { fact: usize, num_facts: usize },
}

impl BuildError {
    /// The error as it is shown to the user.
    pub open spec fn message(&self) -> Seq<char> {
        match self {
            BuildError::ConditionalEffects { operator } => "operator `"@ + operator@
                + "` has conditional effects, which native LM-cut does not yet support"@,
            BuildError::ActionCostTooLarge { operator, cost } => "operator `"@ + operator@ + "` cost "@ + crate::text::decimal(
                *cost as nat,
            ) + " exceeds native LM-cut's u32 range"@,
            BuildError::InvalidFact { fact, num_facts } => "LM-cut action references fact "@ + crate::text::decimal(*fact as nat)
                + ", but the task has only "@ + crate::text::decimal(*num_facts as nat) + " facts"@,
        }
    }

    pub fn to_text(&self) -> (res: String)
        ensures
            res@ == self.message(),
    {
        match self {
            BuildError::ConditionalEffects { operator } => {
                let mut m = String::from_str("operator `");
                m.append(operator.as_str());
                m.append("` has conditional effects, which native LM-cut does not yet support");
                m
            },
            BuildError::ActionCostTooLarge { operator, cost } => {
                let mut m = String::from_str("operator `");
                m.append(operator.as_str());
                m.append("` cost ");
                crate::text::push_number(&mut m, *cost as u128);
                m.append(" exceeds native LM-cut's u32 range");
                m
            },
            BuildError::InvalidFact { fact, num_facts } => {
                let mut m = String::from_str("LM-cut action references fact ");
                crate::text::push_number(&mut m, *fact as u128);
                m.append(", but the task has only ");
                crate::text::push_number(&mut m, *num_facts as u128);
                m.append(" facts");
                m
            },
        }
    }
}

pub open spec fn same_members(a: Seq<usize>, b: Seq<usize>) -> bool {
    forall|y: usize| #[trigger] a.contains(y) <==> b.contains(y)
}

pub open spec fn below(s: Seq<usize>, n: nat) -> bool {
    forall|i: int| 0 <= i < s.len() ==> #[trigger] s[i] < n
}

/// Every fact of the action is below `n`.
pub open spec fn action_in(act: ActionView, n: nat) -> bool {
    below(act.pre, n) && below(act.add, n)
}

pub open spec fn actions_in(acts: Seq<ActionView>, n: nat) -> bool {
    forall|a: int| 0 <= a < acts.len() ==> action_in(#[trigger] acts[a], n)
}

pub open spec fn action_views(v: Seq<RelaxedAction>) -> Seq<ActionView> {
    v.map_values(|a: RelaxedAction| a@)
}

/// A preprocessed relaxed operator graph. Initial facts and goals are supplied
/// to [`RelaxedTask::evaluate`], allowing a single graph to serve all nodes.
#[derive(Debug)]
pub struct RelaxedTask {
    num_facts: usize,
    actions: Vec<RelaxedAction>,
    precondition_of: Vec<Vec<usize>>,
    effect_of: Vec<Vec<usize>>,
    no_preconditions: Vec<usize>,
}

/// `lists[f]` holds the numbers of the first `n` actions for which `member` holds with `f`.
spec fn indexes_pre(lists: Seq<Vec<usize>>, acts: Seq<ActionView>, n: int) -> bool {
    forall|f: int, a: usize|
        0 <= f < lists.len() ==> (#[trigger] lists[f]@.contains(a) <==> (a < n && acts[a as int].pre.contains(f as usize)))
}

spec fn indexes_add(lists: Seq<Vec<usize>>, acts: Seq<ActionView>, n: int) -> bool {
    forall|f: int, a: usize|
        0 <= f < lists.len() ==> (#[trigger] lists[f]@.contains(a) <==> (a < n && acts[a as int].add.contains(f as usize)))
}

spec fn indexes_free(list: Seq<usize>, acts: Seq<ActionView>, n: int) -> bool {
    forall|a: usize| #[trigger] list.contains(a) <==> (a < n && acts[a as int].pre.len() == 0)
}

/// `b` is `a` with its fact lists ascending and without repetitions.
pub open spec fn tidied(a: ActionView, b: ActionView) -> bool {
    &&& strictly_ascending(b.pre)
    &&& strictly_ascending(b.add)
    &&& same_members(a.pre, b.pre)
    &&& same_members(a.add, b.add)
    &&& a.cost == b.cost
}

fn empty_lists(n: usize) -> (res: Vec<Vec<usize>>)
    ensures
        res@.len() == n,
        forall|i: int| 0 <= i < n ==> (#[trigger] res@[i])@.len() == 0,
{
    let mut res: Vec<Vec<usize>> = Vec::new();
    let mut i: usize = 0;
    while i < n
        invariant
            i <= n,
            res@.len() == i,
            forall|k: int| 0 <= k < i ==> (#[trigger] res@[k])@.len() == 0,
        decreases n - i,
    {
        res.push(Vec::new());
        i = i + 1;
    }
    res
}

/// Appends `a` to the lists of the given facts.
fn append_to(lists: &mut Vec<Vec<usize>>, facts: &Vec<usize>, a: usize)
    requires
        below(facts@, old(lists)@.len()),
    ensures
        final(lists)@.len() == old(lists)@.len(),
        forall|f: int, b: usize|
            0 <= f < old(lists)@.len() ==> (#[trigger] final(lists)@[f]@.contains(b) <==> (old(lists)@[f]@.contains(b) || (b == a
                && facts@.contains(f as usize)))),
{
    let ghost before = lists@;
    let size = lists.len();
    let mut i: usize = 0;
    while i < facts.len()
        invariant
            i <= facts@.len(),
            before == old(lists)@,
            size == before.len(),
            lists@.len() == before.len(),
            below(facts@, before.len()),
            forall|f: int, b: usize|
                0 <= f < before.len() ==> (#[trigger] lists@[f]@.contains(b) <==> (before[f]@.contains(b) || (b == a
                    && facts@.take(i as int).contains(f as usize)))),
        decreases facts@.len() - i,
    {
        let fact = facts[i];
        let ghost mid = lists@;
        let mut list = copy_vec(&lists[fact]);
        list.push(a);
        let ghost lv = list@;
        lists.set(fact, list);
        proof {
            let t0 = facts@.take(i as int);
            let t1 = facts@.take(i + 1);
            assert(t1 =~= t0.push(fact));
            assert forall|f: int, b: usize| 0 <= f < before.len() implies (#[trigger] lists@[f]@.contains(b) <==> (before[f]@.contains(
                b,
            ) || (b == a && t1.contains(f as usize)))) by {
                assert(mid[f]@.contains(b) <==> (before[f]@.contains(b) || (b == a && t0.contains(f as usize))));
                if f == fact {
                    assert(lists@[f]@ == lv);
                    assert(lv =~= mid[f]@.push(a));
                    assert(t1[i as int] == fact);
                    assert(lv[mid[f]@.len() as int] == a);
                    if mid[f]@.contains(b) {
                        let k = choose|k: int| 0 <= k < mid[f]@.len() && mid[f]@[k] == b;
                        assert(lv[k] == b);
                    }
                    if lv.contains(b) {
                        let k = choose|k: int| 0 <= k < lv.len() && lv[k] == b;
                        if k < mid[f]@.len() {
                            assert(mid[f]@[k] == b);
                        }
                    }
                } else {
                    assert(lists@[f] == mid[f]);
                }
                if t0.contains(f as usize) {
                    let k = choose|k: int| 0 <= k < t0.len() && t0[k] == f as usize;
                    assert(t1[k] == f as usize);
                }
                if t1.contains(f as usize) {
                    let k = choose|k: int| 0 <= k < t1.len() && t1[k] == f as usize;
                    if k < t0.len() {
                        assert(t0[k] == f as usize);
                    }
                }
            }
        }
        i = i + 1;
    }
    assert(facts@.take(i as int) =~= facts@);
}

/// The first number that is not below `n`.
fn first_outside(v: &Vec<usize>, n: usize) -> (res: Option<usize>)
    ensures
        match res {
            Some(x) => x >= n && v@.contains(x),
            None => below(v@, n as nat),
        },
{
    let mut i: usize = 0;
    while i < v.len()
        invariant
            i <= v@.len(),
            forall|k: int| 0 <= k < i ==> #[trigger] v@[k] < n,
        decreases v@.len() - i,
    {
        if v[i] >= n {
            return Some(v[i]);
        }
        i = i + 1;
    }
    None
}

proof fn lemma_below_members(a: Seq<usize>, b: Seq<usize>, n: nat)
    requires
        same_members(a, b),
    ensures
        below(a, n) <==> below(b, n),
{
    if below(a, n) {
        assert forall|i: int| 0 <= i < b.len() implies #[trigger] b[i] < n by {
            assert(b.contains(b[i]));
            assert(a.contains(b[i]));
            let k = choose|k: int| 0 <= k < a.len() && a[k] == b[i];
            assert(a[k] < n);
        }
    }
    if below(b, n) {
        assert forall|i: int| 0 <= i < a.len() implies #[trigger] a[i] < n by {
            assert(a.contains(a[i]));
            let k = choose|k: int| 0 <= k < b.len() && b[k] == a[i];
            assert(b[k] < n);
        }
    }
}

impl RelaxedTask {
    pub closed spec fn facts(&self) -> nat {
        self.num_facts as nat
    }

    pub closed spec fn acts(&self) -> Seq<ActionView> {
        action_views(self.actions@)
    }

    pub closed spec fn wf(&self) -> bool {
        &&& actions_in(self.acts(), self.facts())
        &&& self.precondition_of@.len() == self.num_facts
        &&& self.effect_of@.len() == self.num_facts
        &&& indexes_pre(self.precondition_of@, self.acts(), self.actions@.len() as int)
        &&& indexes_add(self.effect_of@, self.acts(), self.actions@.len() as int)
        &&& indexes_free(self.no_preconditions@, self.acts(), self.actions@.len() as int)
    }

    /// Builds the graph; every fact of every action must be below `num_facts`.
    pub fn new(num_facts: usize, actions: Vec<RelaxedAction>) -> (res: Result<Self, BuildError>)
        ensures
            match res {
                Ok(task) => {
                    &&& actions_in(action_views(actions@), num_facts as nat)
                    &&& task.wf()
                    &&& task.facts() == num_facts
                    &&& task.acts().len() == actions@.len()
                    &&& forall|a: int| 0 <= a < actions@.len() ==> tidied(actions@[a]@, #[trigger] task.acts()[a])
                },
                Err(e) => {
                    &&& !actions_in(action_views(actions@), num_facts as nat)
                    &&& e matches BuildError::InvalidFact { fact, num_facts: n } && n == num_facts && fact >= num_facts && exists|a: int|
                        0 <= a < actions@.len() && ((#[trigger] actions@[a])@.pre.contains(fact) || actions@[a]@.add.contains(fact))
                },
            },
    {
        let ghost given = action_views(actions@);
        let mut precondition_of = empty_lists(num_facts);
        let mut effect_of = empty_lists(num_facts);
        let mut no_preconditions: Vec<usize> = Vec::new();
        let mut tidy: Vec<RelaxedAction> = Vec::new();
        let mut i: usize = 0;
        while i < actions.len()
            invariant
                given == action_views(actions@),
                i <= actions@.len(),
                tidy@.len() == i,
                precondition_of@.len() == num_facts,
                effect_of@.len() == num_facts,
                forall|a: int| 0 <= a < i ==> tidied(actions@[a]@, #[trigger] action_views(tidy@)[a]),
                forall|a: int| 0 <= a < i ==> action_in(#[trigger] action_views(tidy@)[a], num_facts as nat),
                forall|a: int| 0 <= a < i ==> action_in(#[trigger] given[a], num_facts as nat),
                indexes_pre(precondition_of@, action_views(tidy@), i as int),
                indexes_add(effect_of@, action_views(tidy@), i as int),
                indexes_free(no_preconditions@, action_views(tidy@), i as int),
            decreases actions@.len() - i,
        {
            let action = &actions[i];
            let pre = ascending_numbers(&action.preconditions);
            let add = ascending_numbers(&action.effects);
            assert(given[i as int] == action@);
            proof {
                lemma_below_members(action.preconditions@, pre@, num_facts as nat);
                lemma_below_members(action.effects@, add@, num_facts as nat);
            }
            if let Some(fact) = first_outside(&pre, num_facts) {
                proof {
                    assert(actions@[i as int]@.pre.contains(fact));
                    assert(!action_in(given[i as int], num_facts as nat));
                }
                return Err(BuildError::InvalidFact { fact, num_facts });
            }
            if let Some(fact) = first_outside(&add, num_facts) {
                proof {
                    assert(actions@[i as int]@.add.contains(fact));
                    assert(!action_in(given[i as int], num_facts as nat));
                }
                return Err(BuildError::InvalidFact { fact, num_facts });
            }
            let ghost pre_lists = precondition_of@;
            let ghost add_lists = effect_of@;
            let ghost free_list = no_preconditions@;
            let ghost before = action_views(tidy@);
            if pre.len() == 0 {
                no_preconditions.push(i);
            } else {
                append_to(&mut precondition_of, &pre, i);
            }
            append_to(&mut effect_of, &add, i);
            let ghost view = ActionView { pre: pre@, add: add@, cost: action.cost };
            tidy.push(RelaxedAction { preconditions: pre, effects: add, cost: action.cost });
            proof {
                let now = action_views(tidy@);
                assert(now =~= before.push(view));
                assert forall|f: int, a: usize| 0 <= f < precondition_of@.len() implies (#[trigger] precondition_of@[f]@.contains(a)
                    <==> (a < i + 1 && now[a as int].pre.contains(f as usize))) by {
                    assert(pre_lists[f]@.contains(a) <==> (a < i && before[a as int].pre.contains(f as usize)));
                }
                assert forall|f: int, a: usize| 0 <= f < effect_of@.len() implies (#[trigger] effect_of@[f]@.contains(a) <==> (a < i + 1
                    && now[a as int].add.contains(f as usize))) by {
                    assert(add_lists[f]@.contains(a) <==> (a < i && before[a as int].add.contains(f as usize)));
                }
                assert forall|a: usize| #[trigger] no_preconditions@.contains(a) <==> (a < i + 1 && now[a as int].pre.len() == 0) by {
                    assert(free_list.contains(a) <==> (a < i && before[a as int].pre.len() == 0));
                    if view.pre.len() == 0 {
                        assert(no_preconditions@ =~= free_list.push(i));
                        assert(no_preconditions@[free_list.len() as int] == i);
                        if free_list.contains(a) {
                            let k = choose|k: int| 0 <= k < free_list.len() && free_list[k] == a;
                            assert(no_preconditions@[k] == a);
                        }
                        if no_preconditions@.contains(a) {
                            let k = choose|k: int| 0 <= k < no_preconditions@.len() && no_preconditions@[k] == a;
                            if k < free_list.len() {
                                assert(free_list[k] == a);
                            }
                        }
                    }
                }
                assert forall|a: int| 0 <= a < i + 1 implies tidied(actions@[a]@, #[trigger] now[a]) by {
                    if a < i {
                        assert(now[a] == before[a]);
                    }
                }
                assert forall|a: int| 0 <= a < i + 1 implies action_in(#[trigger] now[a], num_facts as nat) by {
                    if a < i {
                        assert(now[a] == before[a]);
                    }
                }
            }
            i = i + 1;
        }
        Ok(RelaxedTask { num_facts, actions: tidy, precondition_of, effect_of, no_preconditions })
    }
}

// ---------------------------------------------------------------------------
// The h_max values
// ---------------------------------------------------------------------------

/// The number of `false` entries.
spec fn unmarked(s: Seq<bool>) -> nat
    decreases s.len(),
{
    if s.len() == 0 {
        0
    } else {
        unmarked(s.drop_last()) + (if s.last() {
            0nat
        } else {
            1nat
        })
    }
}

proof fn lemma_mark(s: Seq<bool>, i: int)
    requires
        0 <= i < s.len(),
        !s[i],
    ensures
        unmarked(s.update(i, true)) + 1 == unmarked(s),
    decreases s.len(),
{
    if i == s.len() - 1 {
        assert(s.update(i, true).drop_last() =~= s.drop_last());
    } else {
        assert(s.update(i, true).drop_last() =~= s.drop_last().update(i, true));
        lemma_mark(s.drop_last(), i);
    }
}

spec fn sum_costs(costs: Seq<u32>) -> nat
    decreases costs.len(),
{
    if costs.len() == 0 {
        0
    } else {
        sum_costs(costs.drop_last()) + costs.last() as nat
    }
}

/// The relaxed costs of the facts, the precondition that decides each action's
/// cost, and which actions are reached.
struct HMaxValues {
    fact_costs: Vec<u32>,
    supporters: Vec<Option<usize>>,
    reached: Vec<bool>,
    /// The facts in the order in which they were settled.
    order: Ghost<Seq<usize>>,
}

spec fn saturated(x: int) -> u32 {
    if x > u32::MAX {
        u32::MAX
    } else {
        x as u32
    }
}

/// What the action's effects cost at most: the cost of its deciding precondition
/// and its own.
spec fn effect_bound(costs: Seq<u32>, supporter: Option<usize>, rc: u32) -> u32 {
    match supporter {
        Some(p) => saturated(costs[p as int] + rc),
        None => rc,
    }
}

spec fn zero_cost(rc: Seq<u32>) -> spec_fn(int) -> bool {
    |a: int| rc[a] == 0
}

impl HMaxValues {
    spec fn finite(&self, f: int) -> bool {
        self.fact_costs@[f] != UNREACHED
    }

    spec fn sized(&self, n: nat, m: nat) -> bool {
        &&& self.fact_costs@.len() == n
        &&& self.supporters@.len() == m
        &&& self.reached@.len() == m
    }

    /// The deciding precondition is one of the action's.
    spec fn supported(&self, acts: Seq<ActionView>) -> bool {
        forall|a: int|
            0 <= a < acts.len() ==> match #[trigger] self.supporters@[a] {
                Some(p) => self.reached@[a] && acts[a].pre.contains(p),
                None => self.reached@[a] ==> acts[a].pre.len() == 0,
            }
    }

    /// Reached actions bound the costs of what they add.
    spec fn bounded(&self, acts: Seq<ActionView>, rc: Seq<u32>) -> bool {
        forall|a: int, f: usize|
            0 <= a < acts.len() && self.reached@[a] && #[trigger] acts[a].add.contains(f) ==> self.fact_costs@[f as int] <= effect_bound(
                self.fact_costs@,
                self.supporters@[a],
                rc[a],
            )
    }

    /// Finite costs are those of reachable facts, zero costs those of facts that
    /// are reachable for free.
    spec fn justified(&self, acts: Seq<ActionView>, rc: Seq<u32>, initial: Seq<usize>) -> bool {
        forall|f: int|
            0 <= f < self.fact_costs@.len() ==> {
                &&& #[trigger] self.fact_costs@[f] != UNREACHED ==> reachable(acts, any_action(), initial, f as usize) && costs_at_most(
                    acts,
                    rc,
                    initial,
                    f as usize,
                    self.fact_costs@[f] as int,
                )
                &&& self.fact_costs@[f] == 0 ==> reachable(acts, zero_cost(rc), initial, f as usize)
            }
    }

    /// The deciding precondition is one of the dearest.
    spec fn decided(&self, acts: Seq<ActionView>) -> bool {
        forall|a: int|
            0 <= a < acts.len() ==> match #[trigger] self.supporters@[a] {
                Some(p) => self.fact_costs@[p as int] != UNREACHED && forall|i: int|
                    0 <= i < acts[a].pre.len() ==> self.fact_costs@[#[trigger] acts[a].pre[i] as int] <= self.fact_costs@[p as int],
                None => true,
            }
    }

    spec fn starts(&self, initial: Seq<usize>) -> bool {
        forall|i: int| 0 <= i < initial.len() ==> self.fact_costs@[#[trigger] initial[i] as int] == 0
    }

    /// The deciding precondition is the one that was settled last.
    spec fn ordered(&self, acts: Seq<ActionView>) -> bool {
        forall|a: int|
            0 <= a < acts.len() ==> match #[trigger] self.supporters@[a] {
                Some(p) => is_last_of(self.order@, acts[a].pre, p),
                None => true,
            }
    }

    /// Finite costs are those of the initial facts or of facts that reached actions add.
    spec fn sourced(&self, acts: Seq<ActionView>, rc: Seq<u32>, initial: Seq<usize>) -> bool {
        forall|f: int|
            0 <= f < self.fact_costs@.len() && #[trigger] self.fact_costs@[f] != UNREACHED ==> {
                ||| initial.contains(f as usize) && self.fact_costs@[f] == 0
                ||| exists|a: int| #[trigger] self.leads(acts, rc, a, f)
            }
    }

    /// Whether a reached action adds a fact at its cost.
    spec fn leads(&self, acts: Seq<ActionView>, rc: Seq<u32>, a: int, f: int) -> bool {
        &&& 0 <= a < acts.len()
        &&& self.reached@[a]
        &&& acts[a].add.contains(f as usize)
        &&& self.fact_costs@[f] == rc[a] + (match self.supporters@[a] {
            Some(p) => self.fact_costs@[p as int] as int,
            None => 0,
        })
    }
}

/// Lowers the costs of the given facts to at most `target`.
fn lower_costs(costs: &mut Vec<u32>, facts: &Vec<usize>, target: u32)
    requires
        below(facts@, old(costs)@.len()),
    ensures
        final(costs)@.len() == old(costs)@.len(),
        forall|f: int|
            0 <= f < old(costs)@.len() ==> #[trigger] final(costs)@[f] == (if facts@.contains(f as usize) && target < old(costs)@[f] {
                target
            } else {
                old(costs)@[f]
            }),
{
    let ghost before = costs@;
    let size = costs.len();
    let mut i: usize = 0;
    while i < facts.len()
        invariant
            i <= facts@.len(),
            before == old(costs)@,
            size == before.len(),
            costs@.len() == before.len(),
            below(facts@, before.len()),
            forall|f: int|
                0 <= f < before.len() ==> #[trigger] costs@[f] == (if facts@.take(i as int).contains(f as usize) && target < before[f] {
                    target
                } else {
                    before[f]
                }),
        decreases facts@.len() - i,
    {
        let fact = facts[i];
        let ghost mid = costs@;
        if target < costs[fact] {
            costs.set(fact, target);
        }
        proof {
            let t0 = facts@.take(i as int);
            let t1 = facts@.take(i + 1);
            assert(t1 =~= t0.push(fact));
            assert(t1[i as int] == fact);
            assert forall|f: int| 0 <= f < before.len() implies #[trigger] costs@[f] == (if t1.contains(f as usize) && target < before[f] {
                target
            } else {
                before[f]
            }) by {
                assert(mid[f] == (if t0.contains(f as usize) && target < before[f] { target } else { before[f] }));
                if t0.contains(f as usize) {
                    let k = choose|k: int| 0 <= k < t0.len() && t0[k] == f as usize;
                    assert(t1[k] == f as usize);
                }
                if t1.contains(f as usize) {
                    let k = choose|k: int| 0 <= k < t1.len() && t1[k] == f as usize;
                    if k < t0.len() {
                        assert(t0[k] == f as usize);
                    }
                }
            }
        }
        i = i + 1;
    }
    assert(facts@.take(i as int) =~= facts@);
}

fn all_marked(marks: &Vec<bool>, facts: &Vec<usize>) -> (res: bool)
    requires
        below(facts@, marks@.len()),
    ensures
        res == forall|i: int| 0 <= i < facts@.len() ==> marks@[#[trigger] facts@[i] as int],
{
    let mut i: usize = 0;
    while i < facts.len()
        invariant
            i <= facts@.len(),
            below(facts@, marks@.len()),
            forall|k: int| 0 <= k < i ==> marks@[#[trigger] facts@[k] as int],
        decreases facts@.len() - i,
    {
        if !marks[facts[i]] {
            return false;
        }
        i = i + 1;
    }
    true
}

/// The cheapest fact that is not settled, the first among equals.
fn next_fact(costs: &Vec<u32>, settled: &Vec<bool>) -> (res: Option<usize>)
    requires
        costs@.len() == settled@.len(),
    ensures
        match res {
            Some(f) => {
                &&& f < costs@.len()
                &&& !settled@[f as int]
                &&& costs@[f as int] != UNREACHED
                &&& forall|g: int| 0 <= g < costs@.len() && !settled@[g] ==> costs@[f as int] <= #[trigger] costs@[g]
                &&& forall|g: int| 0 <= g < f && !settled@[g] ==> costs@[f as int] < #[trigger] costs@[g]
            },
            None => forall|g: int| 0 <= g < costs@.len() && !settled@[g] ==> #[trigger] costs@[g] == UNREACHED,
        },
{
    let mut best: Option<usize> = None;
    let mut i: usize = 0;
    while i < costs.len()
        invariant
            costs@.len() == settled@.len(),
            i <= costs@.len(),
            match best {
                Some(f) => {
                    &&& f < i
                    &&& !settled@[f as int]
                    &&& costs@[f as int] != UNREACHED
                    &&& forall|g: int| 0 <= g < i && !settled@[g] ==> costs@[f as int] <= #[trigger] costs@[g]
                    &&& forall|g: int| 0 <= g < f && !settled@[g] ==> costs@[f as int] < #[trigger] costs@[g]
                },
                None => forall|g: int| 0 <= g < i && !settled@[g] ==> #[trigger] costs@[g] == UNREACHED,
            },
        decreases costs@.len() - i,
    {
        if !settled[i] && costs[i] != UNREACHED {
            match best {
                Some(f) => {
                    if costs[i] < costs[f] {
                        best = Some(i);
                    }
                },
                None => {
                    best = Some(i);
                },
            }
        }
        i = i + 1;
    }
    best
}

/// All the preconditions are marked.
spec fn pre_marked(act: ActionView, marks: Seq<bool>) -> bool {
    forall|i: int| 0 <= i < act.pre.len() ==> marks[#[trigger] act.pre[i] as int]
}

/// What the h_max computation keeps: settled facts are the cheapest ones, and the
/// reached actions are those with settled preconditions only.
spec fn settling(acts: Seq<ActionView>, h: &HMaxValues, settled: Seq<bool>, last: u32) -> bool {
    &&& forall|f: int| 0 <= f < settled.len() && settled[f] ==> #[trigger] h.fact_costs@[f] <= last && h.fact_costs@[f] != UNREACHED
    &&& forall|f: int| 0 <= f < settled.len() && !settled[f] ==> last <= #[trigger] h.fact_costs@[f]
    &&& forall|a: int|
        0 <= a < acts.len() ==> match #[trigger] h.supporters@[a] {
            Some(q) => q < settled.len() && settled[q as int],
            None => true,
        }
}

impl RelaxedTask {
    /// Marks the action as reached through `supporter` and lowers the costs of
    /// its effects accordingly.
    fn reach(&self, h: &mut HMaxValues, a: usize, supporter: Option<usize>, rc: &Vec<u32>, Ghost(initial): Ghost<Seq<usize>>, Ghost(settled): Ghost<Seq<bool>>, Ghost(last): Ghost<u32>)
        requires
            self.wf(),
            old(h).sized(self.facts(), self.acts().len()),
            rc@.len() == self.acts().len(),
            settled.len() == self.facts(),
            a < self.acts().len(),
            !old(h).reached@[a as int],
            old(h).supporters@[a as int] is None,
            match supporter {
                Some(p) => self.acts()[a as int].pre.contains(p) && old(h).fact_costs@[p as int] == last && last != UNREACHED,
                None => self.acts()[a as int].pre.len() == 0 && last == 0,
            },
            pre_marked(self.acts()[a as int], settled),
            settling(self.acts(), old(h), settled, last),
            old(h).supported(self.acts()),
            old(h).bounded(self.acts(), rc@),
            old(h).justified(self.acts(), rc@, initial),
            old(h).decided(self.acts()),
            old(h).starts(initial),
            below(initial, self.facts()),
            old(h).sourced(self.acts(), rc@, initial),
        ensures
            final(h).sized(self.facts(), self.acts().len()),
            final(h).order == old(h).order,
            final(h).reached@ == old(h).reached@.update(a as int, true),
            final(h).supporters@ == old(h).supporters@.update(a as int, supporter),
            settling(self.acts(), final(h), settled, last),
            final(h).supported(self.acts()),
            final(h).bounded(self.acts(), rc@),
            final(h).justified(self.acts(), rc@, initial),
            final(h).decided(self.acts()),
            final(h).starts(initial),
            final(h).sourced(self.acts(), rc@, initial),
            forall|f: int| 0 <= f < self.facts() ==> #[trigger] final(h).fact_costs@[f] <= old(h).fact_costs@[f],
            forall|f: int| 0 <= f < self.facts() && settled[f] ==> #[trigger] final(h).fact_costs@[f] == old(h).fact_costs@[f],
    {
        let ghost acts = self.acts();
        let ghost before = *h;
        assert(acts[a as int] == self.actions@[a as int]@);
        assert(action_in(acts[a as int], self.facts()));
        let target: u32 = match supporter {
            Some(p) => {
                assert(below(acts[a as int].pre, self.facts()));
                let k = Ghost(choose|k: int| 0 <= k < acts[a as int].pre.len() && acts[a as int].pre[k] == p);
                assert(acts[a as int].pre[k@] < self.facts());
                let sum: u64 = h.fact_costs[p] as u64 + rc[a] as u64;
                if sum > u32::MAX as u64 {
                    u32::MAX
                } else {
                    sum as u32
                }
            },
            None => rc[a],
        };
        h.reached.set(a, true);
        h.supporters.set(a, supporter);
        lower_costs(&mut h.fact_costs, &self.actions[a].effects, target);
        proof {
            let act = acts[a as int];
            // settled facts keep their costs
            assert forall|f: int| 0 <= f < self.facts() && settled[f] implies #[trigger] h.fact_costs@[f] == before.fact_costs@[f] by {
                assert(before.fact_costs@[f] <= last);
                assert(last <= target);
            }
            assert forall|f: int| 0 <= f < self.facts() implies #[trigger] h.fact_costs@[f] <= before.fact_costs@[f] by {}
            assert(effect_bound(before.fact_costs@, supporter, rc@[a as int]) == target);
            match supporter {
                Some(p) => {
                    let k = choose|k: int| 0 <= k < act.pre.len() && act.pre[k] == p;
                    assert(settled[act.pre[k] as int]);
                    assert(h.fact_costs@[p as int] == before.fact_costs@[p as int]);
                },
                None => {},
            }
            assert(h.bounded(acts, rc@)) by {
                assert forall|b: int, f: usize|
                    0 <= b < acts.len() && h.reached@[b] && #[trigger] acts[b].add.contains(f) implies h.fact_costs@[f as int]
                    <= effect_bound(h.fact_costs@, h.supporters@[b], rc@[b]) by {
                    assert(action_in(acts[b], self.facts()));
                    let j = choose|j: int| 0 <= j < acts[b].add.len() && acts[b].add[j] == f;
                    assert(acts[b].add[j] < self.facts());
                    if b != a {
                        assert(before.reached@[b]);
                        match before.supporters@[b] {
                            Some(q) => {
                                // the deciding precondition of a reached action keeps its cost
                                assert(acts[b].pre.contains(q));
                                let i = choose|i: int| 0 <= i < acts[b].pre.len() && acts[b].pre[i] == q;
                                assert(acts[b].pre[i] < self.facts());
                                assert(settled[q as int]);
                                assert(h.fact_costs@[q as int] == before.fact_costs@[q as int]);
                            },
                            None => {},
                        }
                    }
                }
            }
            assert(h.justified(acts, rc@, initial)) by {
                assert forall|f: int| 0 <= f < h.fact_costs@.len() implies {
                    &&& #[trigger] h.fact_costs@[f] != UNREACHED ==> reachable(acts, any_action(), initial, f as usize) && costs_at_most(
                        acts,
                        rc@,
                        initial,
                        f as usize,
                        h.fact_costs@[f] as int,
                    )
                    &&& h.fact_costs@[f] == 0 ==> reachable(acts, zero_cost(rc@), initial, f as usize)
                } by {
                    assert(before.fact_costs@[f] != UNREACHED ==> reachable(acts, any_action(), initial, f as usize));
                    if h.fact_costs@[f] != before.fact_costs@[f] {
                        assert forall|i: int| 0 <= i < act.pre.len() implies reachable(acts, any_action(), initial, #[trigger] act.pre[i])
                            && (last == 0 ==> reachable(acts, zero_cost(rc@), initial, act.pre[i])) by {
                            assert(act.pre[i] < self.facts());
                            assert(settled[act.pre[i] as int]);
                            assert(before.fact_costs@[act.pre[i] as int] <= last);
                            assert(before.fact_costs@[act.pre[i] as int] != UNREACHED);
                        }
                        lemma_reach_step(acts, any_action(), initial, a as int, f as usize);
                        if target != UNREACHED {
                            assert forall|i: int| 0 <= i < act.pre.len() implies costs_at_most(acts, rc@, initial, #[trigger] act.pre[i], last as int) by {
                                assert(act.pre[i] < self.facts());
                                assert(settled[act.pre[i] as int]);
                                let c = before.fact_costs@[act.pre[i] as int];
                                assert(c <= last && c != UNREACHED);
                                lemma_costs_more(acts, rc@, initial, act.pre[i], c as int, last as int);
                            }
                            lemma_costs_step(acts, rc@, initial, a as int, f as usize, last as int);
                            assert(target == last + rc@[a as int]);
                        }
                        if target == 0 {
                            assert(last == 0 && rc@[a as int] == 0);
                            lemma_reach_step(acts, zero_cost(rc@), initial, a as int, f as usize);
                        }
                    }
                }
            }
            assert(h.decided(acts)) by {
                assert forall|b: int| 0 <= b < acts.len() implies match #[trigger] h.supporters@[b] {
                    Some(p) => h.fact_costs@[p as int] != UNREACHED && forall|i: int|
                        0 <= i < acts[b].pre.len() ==> h.fact_costs@[#[trigger] acts[b].pre[i] as int] <= h.fact_costs@[p as int],
                    None => true,
                } by {
                    assert(action_in(acts[b], self.facts()));
                    if let Some(p) = h.supporters@[b] {
                        if b != a {
                            assert(h.supporters@[b] == before.supporters@[b]);
                            assert(settled[p as int]);
                        }
                        assert forall|i: int| 0 <= i < acts[b].pre.len() implies h.fact_costs@[#[trigger] acts[b].pre[i] as int]
                            <= h.fact_costs@[p as int] by {
                            assert(acts[b].pre[i] < self.facts());
                            if b == a {
                                assert(settled[acts[b].pre[i] as int]);
                            }
                        }
                    }
                }
            }
            assert(h.sourced(acts, rc@, initial)) by {
                assert forall|f: int| 0 <= f < h.fact_costs@.len() && #[trigger] h.fact_costs@[f] != UNREACHED implies {
                    ||| initial.contains(f as usize) && h.fact_costs@[f] == 0
                    ||| exists|b: int| #[trigger] h.leads(acts, rc@, b, f)
                } by {
                    if h.fact_costs@[f] == before.fact_costs@[f] {
                        if !(initial.contains(f as usize) && before.fact_costs@[f] == 0) {
                            let b = choose|b: int| #[trigger] before.leads(acts, rc@, b, f);
                            assert(b != a);
                            assert(h.supporters@[b] == before.supporters@[b]);
                            assert(h.leads(acts, rc@, b, f));
                        }
                    } else {
                        assert(act.add.contains(f as usize));
                        assert(h.leads(acts, rc@, a as int, f));
                    }
                }
            }
            assert(settling(acts, h, settled, last)) by {
                assert forall|b: int| 0 <= b < acts.len() implies match #[trigger] h.supporters@[b] {
                    Some(q) => q < settled.len() && settled[q as int],
                    None => true,
                } by {
                    if b != a {
                        assert(h.supporters@[b] == before.supporters@[b]);
                    } else if supporter is Some {
                        let p = supporter->0;
                        let k = choose|k: int| 0 <= k < act.pre.len() && act.pre[k] == p;
                        assert(act.pre[k] < self.facts());
                        assert(settled[act.pre[k] as int]);
                    }
                }
            }
            assert(h.supported(acts)) by {
                assert forall|b: int| 0 <= b < acts.len() implies match #[trigger] h.supporters@[b] {
                    Some(p) => h.reached@[b] && acts[b].pre.contains(p),
                    None => h.reached@[b] ==> acts[b].pre.len() == 0,
                } by {
                    if b != a {
                        assert(h.supporters@[b] == before.supporters@[b]);
                    }
                }
            }
            assert forall|i: int| 0 <= i < initial.len() implies h.fact_costs@[#[trigger] initial[i] as int] == 0 by {
                assert(before.fact_costs@[initial[i] as int] == 0);
            }
        }
    }
}

/// What costs little costs no more than more, in more rounds.
proof fn lemma_costs_grow(acts: Seq<ActionView>, rc: Seq<u32>, initial: Seq<usize>, f: usize, c: int, n: nat, d: int, m: nat)
    requires
        costs_within(acts, rc, initial, f, c, n),
        c <= d,
        n <= m,
    ensures
        costs_within(acts, rc, initial, f, d, m),
    decreases n,
{
    if !initial.contains(f) {
        let a = choose|a: int|
            {
                &&& 0 <= a < acts.len()
                &&& (#[trigger] acts[a]).add.contains(f)
                &&& rc[a] <= c
                &&& forall|i: int|
                    0 <= i < acts[a].pre.len() ==> costs_within(acts, rc, initial, #[trigger] acts[a].pre[i], c - rc[a], (n - 1) as nat)
            };
        assert forall|i: int| 0 <= i < acts[a].pre.len() implies costs_within(
            acts,
            rc,
            initial,
            #[trigger] acts[a].pre[i],
            d - rc[a],
            (m - 1) as nat,
        ) by {
            lemma_costs_grow(acts, rc, initial, acts[a].pre[i], c - rc[a], (n - 1) as nat, d - rc[a], (m - 1) as nat);
        }
    }
}

proof fn lemma_costs_more(acts: Seq<ActionView>, rc: Seq<u32>, initial: Seq<usize>, f: usize, c: int, d: int)
    requires
        costs_at_most(acts, rc, initial, f, c),
        c <= d,
    ensures
        costs_at_most(acts, rc, initial, f, d),
{
    let n = choose|n: nat| #[trigger] costs_within(acts, rc, initial, f, c, n);
    lemma_costs_grow(acts, rc, initial, f, c, n, d, n);
}

/// Facts that cost at most `c` do so in a common number of rounds.
proof fn lemma_common_rounds(acts: Seq<ActionView>, rc: Seq<u32>, initial: Seq<usize>, facts: Seq<usize>, c: int) -> (n: nat)
    requires
        forall|i: int| 0 <= i < facts.len() ==> costs_at_most(acts, rc, initial, #[trigger] facts[i], c),
    ensures
        forall|i: int| 0 <= i < facts.len() ==> costs_within(acts, rc, initial, #[trigger] facts[i], c, n),
    decreases facts.len(),
{
    if facts.len() == 0 {
        0
    } else {
        let rest = facts.drop_last();
        assert forall|i: int| 0 <= i < rest.len() implies costs_at_most(acts, rc, initial, #[trigger] rest[i], c) by {
            assert(rest[i] == facts[i]);
        }
        let m = lemma_common_rounds(acts, rc, initial, rest, c);
        assert(costs_at_most(acts, rc, initial, facts[facts.len() - 1], c));
        let k = choose|k: nat| #[trigger] costs_within(acts, rc, initial, facts.last(), c, k);
        let n = if m > k {
            m
        } else {
            k
        };
        assert forall|i: int| 0 <= i < facts.len() implies costs_within(acts, rc, initial, #[trigger] facts[i], c, n) by {
            if i < rest.len() {
                assert(rest[i] == facts[i]);
                lemma_costs_grow(acts, rc, initial, facts[i], c, m, c, n);
            } else {
                lemma_costs_grow(acts, rc, initial, facts[i], c, k, c, n);
            }
        }
        n
    }
}

proof fn lemma_costs_step(acts: Seq<ActionView>, rc: Seq<u32>, initial: Seq<usize>, a: int, f: usize, c: int)
    requires
        0 <= a < acts.len(),
        c >= 0,
        forall|i: int| 0 <= i < acts[a].pre.len() ==> costs_at_most(acts, rc, initial, #[trigger] acts[a].pre[i], c),
        acts[a].add.contains(f),
    ensures
        costs_at_most(acts, rc, initial, f, c + rc[a]),
{
    let n = lemma_common_rounds(acts, rc, initial, acts[a].pre, c);
    assert forall|i: int| 0 <= i < acts[a].pre.len() implies costs_within(
        acts,
        rc,
        initial,
        #[trigger] acts[a].pre[i],
        c + rc[a] - rc[a],
        n,
    ) by {}
    assert(costs_within(acts, rc, initial, f, c + rc[a], n + 1));
}

/// Whether a list has each marked number once and nothing else.
spec fn lists(order: Seq<usize>, marks: Seq<bool>) -> bool {
    &&& order.no_duplicates()
    &&& forall|f: usize| #[trigger] order.contains(f) <==> f < marks.len() && marks[f as int]
}

/// Another number is marked and listed.
proof fn lemma_listed(order: Seq<usize>, marks: Seq<bool>, fact: usize)
    requires
        lists(order, marks),
        fact < marks.len(),
        !marks[fact as int],
    ensures
        lists(order.push(fact), marks.update(fact as int, true)),
{
    let more = order.push(fact);
    assert(!order.contains(fact));
    assert forall|f: usize| #[trigger] more.contains(f) <==> f < marks.len() && marks.update(fact as int, true)[f as int] by {
        assert(order.contains(f) <==> f < marks.len() && marks[f as int]);
        if order.contains(f) {
            let k = choose|k: int| 0 <= k < order.len() && order[k] == f;
            assert(more[k] == f);
        }
        if more.contains(f) && f != fact {
            let k = choose|k: int| 0 <= k < more.len() && more[k] == f;
            assert(order[k] == f);
        }
        assert(more[order.len() as int] == fact);
    }
    assert forall|i: int, j: int| 0 <= i < more.len() && 0 <= j < more.len() && i != j implies more[i] != more[j] by {
        if i < order.len() && j < order.len() {
        } else if i < order.len() {
            assert(order.contains(order[i]));
        } else {
            assert(order.contains(order[j]));
        }
    }
}

proof fn lemma_listed_at(order: Seq<usize>, marks: Seq<bool>, k: int)
    requires
        lists(order, marks),
        0 <= k < order.len(),
    ensures
        order[k] < marks.len(),
        marks[order[k] as int],
{
    assert(order.contains(order[k]));
}

/// What is last in a list stays last of what stood before it.
proof fn lemma_last_stays(order: Seq<usize>, x: usize, facts: Seq<usize>, p: usize)
    requires
        is_last_of(order, facts, p),
    ensures
        is_last_of(order.push(x), facts, p),
{
    let j = choose|j: int|
        {
            &&& 0 <= j < order.len()
            &&& #[trigger] order[j] == p
            &&& forall|i: int| 0 <= i < facts.len() ==> order.take(j + 1).contains(#[trigger] facts[i])
        };
    assert(order.push(x).take(j + 1) =~= order.take(j + 1));
    assert(order.push(x)[j] == p);
}

/// Where all facts are listed, the last of the list is the last of them.
proof fn lemma_settled_last(order: Seq<usize>, marks: Seq<bool>, facts: Seq<usize>, n: nat)
    requires
        order.len() > 0,
        lists(order, marks),
        marks.len() == n,
        below(facts, n),
        forall|i: int| 0 <= i < facts.len() ==> marks[#[trigger] facts[i] as int],
    ensures
        is_last_of(order, facts, order.last()),
{
    let j = order.len() - 1;
    assert(order.take(j + 1) =~= order);
    assert forall|i: int| 0 <= i < facts.len() implies order.take(j + 1).contains(#[trigger] facts[i]) by {
        assert(facts[i] < n);
        assert(order.contains(facts[i]) <==> facts[i] < marks.len() && marks[facts[i] as int]);
    }
    assert(order[j] == order.last());
}

/// The next fact stays the next one where the costs of what is settled stay.
proof fn lemma_next_stays(r: Round, s: Round, k: int)
    requires
        r.acts == s.acts,
        r.rc == s.rc,
        r.initial == s.initial,
        0 <= k < r.settled.len(),
        k < s.settled.len(),
        r.settled.take(k + 1) == s.settled.take(k + 1),
        r.costs[r.settled[k] as int] == s.costs[r.settled[k] as int],
        forall|a: int| 0 <= a < r.acts.len() && #[trigger] r.ready(a, k) ==> r.arrival(a) == s.arrival(a),
        r.is_next(k),
    ensures
        s.is_next(k),
{
    assert(r.settled.take(k) =~= r.settled.take(k + 1).take(k));
    assert(s.settled.take(k) =~= s.settled.take(k + 1).take(k));
    assert(r.settled.take(k + 1)[k] == r.settled[k]);
    assert(s.settled.take(k + 1)[k] == s.settled[k]);
    assert(r.settled[k] == s.settled[k]);
    assert forall|a: int| 0 <= a < r.acts.len() implies #[trigger] r.ready(a, k) == s.ready(a, k) by {}
    assert forall|f: usize, c: int| #[trigger] s.queued(k, f, c) == r.queued(k, f, c) by {
        if s.queued(k, f, c) && !(s.initial.contains(f) && c == 0) {
            let a = choose|a: int|
                0 <= a < s.acts.len() && #[trigger] s.acts[a].add.contains(f) && s.ready(a, k) && c == s.arrival(a);
            assert(r.ready(a, k));
            assert(r.acts[a].add.contains(f));
        }
        if r.queued(k, f, c) && !(r.initial.contains(f) && c == 0) {
            let a = choose|a: int|
                0 <= a < r.acts.len() && #[trigger] r.acts[a].add.contains(f) && r.ready(a, k) && c == r.arrival(a);
            assert(s.ready(a, k));
            assert(s.acts[a].add.contains(f));
        }
    }
}

/// The preconditions of an action that is ready before the last fact was settled.
proof fn lemma_ready(r: Round, a: int, k: int, order: Seq<usize>, marks: Seq<bool>, fact: usize)
    requires
        r.settled == order.push(fact),
        0 <= k <= order.len(),
        lists(order, marks),
        r.ready(a, k),
    ensures
        pre_marked(r.acts[a], marks),
{
    assert forall|i: int| 0 <= i < r.acts[a].pre.len() implies marks[#[trigger] r.acts[a].pre[i] as int] by {
        let f = r.acts[a].pre[i];
        assert(r.settled.take(k).contains(f));
        let j = choose|j: int| 0 <= j < k && r.settled.take(k)[j] == f;
        assert(order[j] == f);
        assert(order.contains(f));
    }
}

/// The cheapest fact that is not settled is the next in the queue.
proof fn lemma_next(h: &HMaxValues, g: &HMaxValues, acts: Seq<ActionView>, n: nat, rc: Seq<u32>, initial: Seq<usize>, marks: Seq<bool>, fact: usize)
    requires
        h.sized(n, acts.len()),
        actions_in(acts, n),
        below(initial, n),
        marks.len() == n,
        lists(h.order@, marks),
        g.fact_costs == h.fact_costs,
        g.supporters == h.supporters,
        g.order@ == h.order@.push(fact),
        h.bounded(acts, rc),
        h.starts(initial),
        h.sourced(acts, rc, initial),
        forall|a: int| 0 <= a < acts.len() ==> (#[trigger] h.reached@[a] <==> pre_marked(acts[a], marks)),
        fact < n,
        !marks[fact as int],
        h.fact_costs@[fact as int] != UNREACHED,
        forall|f: int| 0 <= f < n && !marks[f] ==> h.fact_costs@[fact as int] <= #[trigger] h.fact_costs@[f],
        forall|f: int| 0 <= f < fact && !marks[f] ==> h.fact_costs@[fact as int] < #[trigger] h.fact_costs@[f],
    ensures
        round_of(g, acts, rc, initial, 0).is_next(h.order@.len() as int),
{
    let r = round_of(g, acts, rc, initial, 0);
    let k = h.order@.len() as int;
    let order = h.order@;
    assert(r.settled.take(k) =~= order);
    assert(r.settled[k] == fact);
    assert forall|a: int| 0 <= a < acts.len() implies #[trigger] r.ready(a, k) == h.reached@[a] by {
        assert(action_in(acts[a], n));
        assert(h.reached@[a] <==> pre_marked(acts[a], marks));
        if r.ready(a, k) {
            lemma_ready(r, a, k, order, marks, fact);
        }
        if h.reached@[a] {
            assert forall|i: int| 0 <= i < acts[a].pre.len() implies r.settled.take(k).contains(#[trigger] acts[a].pre[i]) by {
                assert(acts[a].pre[i] < n);
                assert(marks[acts[a].pre[i] as int]);
                assert(order.contains(acts[a].pre[i]));
            }
        }
    }
    assert(r.queued(k, fact, r.costs[fact as int] as int)) by {
        assert(h.fact_costs@[fact as int] != UNREACHED);
        if !(initial.contains(fact) && h.fact_costs@[fact as int] == 0) {
            let a = choose|a: int| #[trigger] h.leads(acts, rc, a, fact as int);
            assert(r.ready(a, k));
            assert(r.acts[a].add.contains(fact));
        }
    }
    assert forall|f: usize, c: int| #[trigger] r.queued(k, f, c) && !r.settled.take(k).contains(f) implies comes_first(
        r.costs[fact as int] as int,
        fact,
        c,
        f,
    ) by {
        if initial.contains(f) && c == 0 {
            lemma_members_below(initial, n, f);
            let i = choose|i: int| 0 <= i < initial.len() && initial[i] == f;
            assert(h.fact_costs@[initial[i] as int] == 0);
        } else {
            let a = choose|a: int|
                0 <= a < r.acts.len() && #[trigger] r.acts[a].add.contains(f) && r.ready(a, k) && c == r.arrival(a);
            assert(h.reached@[a]);
            assert(action_in(acts[a], n));
            lemma_members_below(acts[a].add, n, f);
            assert(h.fact_costs@[f as int] <= effect_bound(h.fact_costs@, h.supporters@[a], rc[a]));
            assert(h.fact_costs@[f as int] <= c);
        }
        assert(order.contains(f) <==> f < marks.len() && marks[f as int]);
        assert(!marks[f as int]);
    }
}

/// What the finished h_max values tell.
spec fn finished(h: &HMaxValues, acts: Seq<ActionView>, n: nat, rc: Seq<u32>, initial: Seq<usize>) -> bool {
    &&& h.sized(n, acts.len())
    &&& h.supported(acts)
    &&& h.bounded(acts, rc)
    &&& h.justified(acts, rc, initial)
    &&& h.decided(acts)
    &&& h.starts(initial)
    &&& h.sourced(acts, rc, initial)
    &&& h.ordered(acts)
    &&& round_of(h, acts, rc, initial, 0).settles()
    &&& forall|a: int|
        0 <= a < acts.len() ==> (#[trigger] h.reached@[a] <==> forall|i: int|
            0 <= i < acts[a].pre.len() ==> h.finite(#[trigger] acts[a].pre[i] as int))
}

impl RelaxedTask {
    fn hmax(&self, initial: &Vec<usize>, rc: &Vec<u32>) -> (res: HMaxValues)
        requires
            self.wf(),
            below(initial@, self.facts()),
            rc@.len() == self.acts().len(),
        ensures
            finished(&res, self.acts(), self.facts(), rc@, initial@),
    {
        let ghost acts = self.acts();
        let n = self.num_facts;
        let m = self.actions.len();
        let mut fact_costs: Vec<u32> = Vec::new();
        let mut settled: Vec<bool> = Vec::new();
        let mut i: usize = 0;
        while i < n
            invariant
                i <= n,
                fact_costs@.len() == i,
                settled@.len() == i,
                forall|k: int| 0 <= k < i ==> fact_costs@[k] == UNREACHED && !settled@[k],
            decreases n - i,
        {
            fact_costs.push(UNREACHED);
            settled.push(false);
            i = i + 1;
        }
        let mut supporters: Vec<Option<usize>> = Vec::new();
        let mut reached: Vec<bool> = Vec::new();
        let mut j: usize = 0;
        while j < m
            invariant
                j <= m,
                supporters@.len() == j,
                reached@.len() == j,
                forall|k: int| 0 <= k < j ==> (#[trigger] supporters@[k]) is None,
                forall|k: int| 0 <= k < j ==> !(#[trigger] reached@[k]),
            decreases m - j,
        {
            supporters.push(None);
            reached.push(false);
            j = j + 1;
        }
        lower_costs(&mut fact_costs, initial, 0);
        let mut h = HMaxValues { fact_costs, supporters, reached, order: Ghost(Seq::empty()) };
        proof {
            assert forall|f: int| 0 <= f < n implies {
                &&& #[trigger] h.fact_costs@[f] != UNREACHED ==> reachable(acts, any_action(), initial@, f as usize) && costs_at_most(
                    acts,
                    rc@,
                    initial@,
                    f as usize,
                    h.fact_costs@[f] as int,
                )
                &&& h.fact_costs@[f] == 0 ==> reachable(acts, zero_cost(rc@), initial@, f as usize)
            } by {
                if initial@.contains(f as usize) {
                    assert(layer(acts, any_action(), initial@, 0).contains(f as usize));
                    assert(layer(acts, zero_cost(rc@), initial@, 0).contains(f as usize));
                    assert(costs_within(acts, rc@, initial@, f as usize, 0, 0));
                }
            }
            assert forall|k: int| 0 <= k < initial@.len() implies h.fact_costs@[#[trigger] initial@[k] as int] == 0 by {
                assert(initial@.contains(initial@[k]));
            }
        }
        let mut k: usize = 0;
        proof {
            assert forall|i: int| 0 <= i < self.no_preconditions@.len() implies #[trigger] self.no_preconditions@[i] < m by {
                assert(self.no_preconditions@.contains(self.no_preconditions@[i]));
            }
        }
        while k < self.no_preconditions.len()
            invariant
                self.wf(),
                forall|i: int| 0 <= i < self.no_preconditions@.len() ==> #[trigger] self.no_preconditions@[i] < m,
                acts == self.acts(),
                n == self.facts(),
                m == acts.len(),
                below(initial@, self.facts()),
                rc@.len() == acts.len(),
                settled@.len() == n,
                forall|f: int| 0 <= f < n ==> !(#[trigger] settled@[f]),
                k <= self.no_preconditions@.len(),
                h.sized(n as nat, m as nat),
                settling(acts, &h, settled@, 0),
                h.supported(acts),
                h.bounded(acts, rc@),
                h.justified(acts, rc@, initial@),
                h.decided(acts),
                h.starts(initial@),
                h.sourced(acts, rc@, initial@),
                h.order@.len() == 0,
                forall|a: int| 0 <= a < m ==> (#[trigger] h.supporters@[a]) is None,
                forall|a: int| 0 <= a < m && #[trigger] h.reached@[a] ==> acts[a].pre.len() == 0,
                forall|i: int| 0 <= i < k ==> h.reached@[#[trigger] self.no_preconditions@[i] as int],
            decreases self.no_preconditions@.len() - k,
        {
            let a = self.no_preconditions[k];
            assert(self.no_preconditions@.contains(a));
            if !h.reached[a] {
                assert(h.supporters@[a as int] is None);
                self.reach(&mut h, a, None, rc, Ghost(initial@), Ghost(settled@), Ghost(0u32));
            }
            k = k + 1;
        }
        let ghost mut last: u32 = 0;
        proof {
            assert forall|a: int| 0 <= a < m implies (#[trigger] h.reached@[a] <==> pre_marked(acts[a], settled@)) by {
                if acts[a].pre.len() == 0 {
                    assert(self.no_preconditions@.contains(a as usize));
                    let i = choose|i: int| 0 <= i < self.no_preconditions@.len() && self.no_preconditions@[i] == a as usize;
                    assert(h.reached@[self.no_preconditions@[i] as int]);
                } else {
                    assert(action_in(acts[a], n as nat));
                    assert(acts[a].pre[0] < n);
                    assert(!settled@[acts[a].pre[0] as int]);
                }
            }
        }
        loop
            invariant
                self.wf(),
                acts == self.acts(),
                n == self.facts(),
                m == acts.len(),
                below(initial@, self.facts()),
                rc@.len() == acts.len(),
                settled@.len() == n,
                h.sized(n as nat, m as nat),
                settling(acts, &h, settled@, last),
                h.supported(acts),
                h.bounded(acts, rc@),
                h.justified(acts, rc@, initial@),
                h.decided(acts),
                h.starts(initial@),
                h.sourced(acts, rc@, initial@),
                h.ordered(acts),
                lists(h.order@, settled@),
                forall|k: int| 0 <= k < h.order@.len() ==> #[trigger] round_of(&h, acts, rc@, initial@, 0).is_next(k),
                forall|a: int| 0 <= a < m ==> (#[trigger] h.reached@[a] <==> pre_marked(acts[a], settled@)),
            ensures
                forall|f: int| 0 <= f < n && !settled@[f] ==> #[trigger] h.fact_costs@[f] == UNREACHED,
            decreases unmarked(settled@),
        {
            let fact = match next_fact(&h.fact_costs, &settled) {
                Some(fact) => fact,
                None => {
                    break;
                },
            };
            let ghost before = settled@;
            proof {
                last = h.fact_costs@[fact as int];
                lemma_mark(settled@, fact as int);
            }
            let ghost earlier = h;
            h.order = Ghost(h.order@.push(fact));
            proof {
                lemma_next(&earlier, &h, acts, n as nat, rc@, initial@, settled@, fact);
                lemma_listed(earlier.order@, settled@, fact);
                assert forall|k: int| 0 <= k < h.order@.len() implies #[trigger] round_of(&h, acts, rc@, initial@, 0).is_next(k) by {
                    if k < earlier.order@.len() {
                        assert(round_of(&earlier, acts, rc@, initial@, 0).is_next(k));
                        assert(h.order@.take(k + 1) =~= earlier.order@.take(k + 1));
                        lemma_next_stays(round_of(&earlier, acts, rc@, initial@, 0), round_of(&h, acts, rc@, initial@, 0), k);
                    }
                }
                assert(h.sourced(acts, rc@, initial@)) by {
                    assert forall|f: int| 0 <= f < h.fact_costs@.len() && #[trigger] h.fact_costs@[f] != UNREACHED implies {
                        ||| initial@.contains(f as usize) && h.fact_costs@[f] == 0
                        ||| exists|a: int| #[trigger] h.leads(acts, rc@, a, f)
                    } by {
                        assert(earlier.fact_costs@[f] != UNREACHED);
                        if !(initial@.contains(f as usize) && h.fact_costs@[f] == 0) {
                            let a = choose|a: int| #[trigger] earlier.leads(acts, rc@, a, f);
                            assert(h.leads(acts, rc@, a, f));
                        }
                    }
                }
                assert(h.ordered(acts)) by {
                    assert forall|a: int| 0 <= a < acts.len() implies match #[trigger] h.supporters@[a] {
                        Some(p) => is_last_of(h.order@, acts[a].pre, p),
                        None => true,
                    } by {
                        assert(h.supporters@[a] == earlier.supporters@[a]);
                        if let Some(p) = h.supporters@[a] {
                            lemma_last_stays(earlier.order@, fact, acts[a].pre, p);
                        }
                    }
                }
            }
            let ghost start = h;
            settled.set(fact, true);
            assert(settling(acts, &h, settled@, last)) by {
                assert forall|a: int| 0 <= a < acts.len() implies match #[trigger] h.supporters@[a] {
                    Some(q) => q < settled@.len() && settled@[q as int],
                    None => true,
                } by {}
            }
            let mut k: usize = 0;
            proof {
                assert forall|i: int| 0 <= i < self.precondition_of@[fact as int]@.len() implies #[trigger] self.precondition_of@[fact as int]@[i]
                    < m by {
                    assert(self.precondition_of@[fact as int]@.contains(self.precondition_of@[fact as int]@[i]));
                }
            }
            while k < self.precondition_of[fact].len()
                invariant
                    self.wf(),
                    forall|i: int|
                        0 <= i < self.precondition_of@[fact as int]@.len() ==> #[trigger] self.precondition_of@[fact as int]@[i] < m,
                    acts == self.acts(),
                    n == self.facts(),
                    m == acts.len(),
                    fact < n,
                    below(initial@, self.facts()),
                    rc@.len() == acts.len(),
                    before.len() == n,
                    settled@ == before.update(fact as int, true),
                    k <= self.precondition_of@[fact as int]@.len(),
                    h.sized(n as nat, m as nat),
                    settling(acts, &h, settled@, last),
                    last == h.fact_costs@[fact as int],
                    last != UNREACHED,
                    h.supported(acts),
                    h.bounded(acts, rc@),
                    h.justified(acts, rc@, initial@),
                h.decided(acts),
                    h.starts(initial@),
                    h.sourced(acts, rc@, initial@),
                    h.ordered(acts),
                    lists(h.order@, settled@),
                    h.order == start.order,
                    h.order@.len() > 0,
                    h.order@.last() == fact,
                    start.sized(n as nat, m as nat),
                    forall|f: int| 0 <= f < n && settled@[f] ==> #[trigger] h.fact_costs@[f] == start.fact_costs@[f],
                    forall|a: int| 0 <= a < m && start.reached@[a] ==> #[trigger] h.supporters@[a] == start.supporters@[a],
                    forall|a: int| 0 <= a < m && #[trigger] start.reached@[a] ==> h.reached@[a],
                    forall|a: int| 0 <= a < m && pre_marked(acts[a], before) ==> #[trigger] h.reached@[a],
                    forall|a: int| 0 <= a < m && #[trigger] h.reached@[a] ==> pre_marked(acts[a], settled@),
                    forall|i: int|
                        0 <= i < k && pre_marked(acts[#[trigger] self.precondition_of@[fact as int]@[i] as int], settled@)
                            ==> h.reached@[self.precondition_of@[fact as int]@[i] as int],
                decreases self.precondition_of@[fact as int]@.len() - k,
            {
                let a = self.precondition_of[fact][k];
                assert(self.precondition_of@[fact as int]@.contains(a));
                assert(acts[a as int].pre.contains(fact));
                assert(acts[a as int] == self.actions@[a as int]@);
                assert(action_in(acts[a as int], n as nat));
                if !h.reached[a] && all_marked(&settled, &self.actions[a].preconditions) {
                    assert(h.supporters@[a as int] is None);
                    let ghost mid = h.reached@;
                    let ghost held = h;
                    self.reach(&mut h, a, Some(fact), rc, Ghost(initial@), Ghost(settled@), Ghost(last));
                    assert(settled@[fact as int]);
                    proof {
                        assert(h.ordered(acts)) by {
                            assert forall|b: int| 0 <= b < acts.len() implies match #[trigger] h.supporters@[b] {
                                Some(p) => is_last_of(h.order@, acts[b].pre, p),
                                None => true,
                            } by {
                                if b == a {
                                    lemma_settled_last(h.order@, settled@, acts[a as int].pre, n as nat);
                                } else {
                                    assert(h.supporters@[b] == held.supporters@[b]);
                                }
                            }
                        }
                        assert forall|b: int| 0 <= b < m && #[trigger] h.reached@[b] implies pre_marked(acts[b], settled@) by {
                            if b != a {
                                assert(mid[b]);
                            }
                        }
                        assert forall|b: int| 0 <= b < m && pre_marked(acts[b], before) implies #[trigger] h.reached@[b] by {
                            assert(mid[b]);
                        }
                    }
                }
                k = k + 1;
            }
            proof {
                assert forall|k: int| 0 <= k < h.order@.len() implies #[trigger] round_of(&h, acts, rc@, initial@, 0).is_next(k) by {
                    let old_round = round_of(&start, acts, rc@, initial@, 0);
                    let new_round = round_of(&h, acts, rc@, initial@, 0);
                    assert(old_round.is_next(k));
                    lemma_listed_at(h.order@, settled@, k);
                    assert forall|a: int| 0 <= a < acts.len() && #[trigger] old_round.ready(a, k) implies old_round.arrival(a) == new_round.arrival(a) by {
                        lemma_ready(old_round, a, k, earlier.order@, before, fact);
                        assert(pre_marked(acts[a], before));
                        assert(start.reached@[a]);
                        assert(h.supporters@[a] == start.supporters@[a]);
                        if let Some(p) = start.supporters@[a] {
                            assert(settled@[p as int]);
                        }
                    }
                    lemma_next_stays(old_round, new_round, k);
                }
                assert forall|a: int| 0 <= a < m implies (#[trigger] h.reached@[a] <==> pre_marked(acts[a], settled@)) by {
                    if pre_marked(acts[a], settled@) && !pre_marked(acts[a], before) {
                        let i = choose|i: int| 0 <= i < acts[a].pre.len() && !before[#[trigger] acts[a].pre[i] as int];
                        assert(settled@[acts[a].pre[i] as int]);
                        assert(action_in(acts[a], n as nat));
                        assert(acts[a].pre[i] < n);
                        assert(acts[a].pre[i] == fact);
                        assert(self.precondition_of@[fact as int]@.contains(a as usize));
                        let list = self.precondition_of@[fact as int]@;
                        let p = choose|p: int| 0 <= p < list.len() && list[p] == a as usize;
                        assert(pre_marked(acts[self.precondition_of@[fact as int]@[p] as int], settled@));
                    }
                }
            }
        }
        proof {
            assert forall|f: usize| #[trigger] h.order@.contains(f) <==> f < h.fact_costs@.len() && h.fact_costs@[f as int] != UNREACHED by {
                assert(h.order@.contains(f) <==> f < settled@.len() && settled@[f as int]);
            }
            assert forall|a: int| 0 <= a < acts.len() implies (#[trigger] h.reached@[a] <==> forall|i: int|
                0 <= i < acts[a].pre.len() ==> h.finite(#[trigger] acts[a].pre[i] as int)) by {
                assert(action_in(acts[a], n as nat));
                if h.reached@[a] {
                    assert forall|i: int| 0 <= i < acts[a].pre.len() implies h.finite(#[trigger] acts[a].pre[i] as int) by {
                        assert(settled@[acts[a].pre[i] as int]);
                        assert(acts[a].pre[i] < n);
                    }
                } else {
                    let i = choose|i: int| 0 <= i < acts[a].pre.len() && !settled@[#[trigger] acts[a].pre[i] as int];
                    assert(acts[a].pre[i] < n);
                    assert(!h.finite(acts[a].pre[i] as int));
                }
            }
        }
        h
    }
}

/// The finished values are no more than the facts cost.
proof fn lemma_least_costs(h: &HMaxValues, acts: Seq<ActionView>, n: nat, rc: Seq<u32>, initial: Seq<usize>, f: usize, c: int, k: nat)
    requires
        finished(h, acts, n, rc, initial),
        actions_in(acts, n),
        below(initial, n),
        costs_within(acts, rc, initial, f, c, k),
    ensures
        f < n,
        h.fact_costs@[f as int] <= c,
    decreases k,
{
    if initial.contains(f) {
        let i = choose|i: int| 0 <= i < initial.len() && initial[i] == f;
        assert(initial[i] < n);
        assert(h.fact_costs@[initial[i] as int] == 0);
    } else {
        let a = choose|a: int|
            {
                &&& 0 <= a < acts.len()
                &&& (#[trigger] acts[a]).add.contains(f)
                &&& rc[a] <= c
                &&& forall|i: int|
                    0 <= i < acts[a].pre.len() ==> costs_within(acts, rc, initial, #[trigger] acts[a].pre[i], c - rc[a], (k - 1) as nat)
            };
        assert(action_in(acts[a], n));
        lemma_members_below(acts[a].add, n, f);
        assert forall|i: int| 0 <= i < acts[a].pre.len() implies acts[a].pre[i] < n && h.fact_costs@[#[trigger] acts[a].pre[i] as int] <= c
            - rc[a] by {
            lemma_least_costs(h, acts, n, rc, initial, acts[a].pre[i], c - rc[a], (k - 1) as nat);
        }
        if c < u32::MAX {
            assert forall|i: int| 0 <= i < acts[a].pre.len() implies h.finite(#[trigger] acts[a].pre[i] as int) by {
                assert(h.fact_costs@[acts[a].pre[i] as int] <= c - rc[a]);
            }
            assert(h.reached@[a]);
            assert(h.fact_costs@[f as int] <= effect_bound(h.fact_costs@, h.supporters@[a], rc[a]));
            if let Some(p) = h.supporters@[a] {
                let i = choose|i: int| 0 <= i < acts[a].pre.len() && acts[a].pre[i] == p;
                assert(h.fact_costs@[acts[a].pre[i] as int] <= c - rc[a]);
            }
        }
    }
}

/// The round that finished h_max values and a goal make.
spec fn round_of(h: &HMaxValues, acts: Seq<ActionView>, rc: Seq<u32>, initial: Seq<usize>, goal: usize) -> Round {
    Round { acts, rc, initial, costs: h.fact_costs@, settled: h.order@, deciding: h.supporters@, goal }
}

proof fn lemma_round(h: &HMaxValues, acts: Seq<ActionView>, n: nat, rc: Seq<u32>, initial: Seq<usize>, goals: Seq<usize>, goal: usize)
    requires
        finished(h, acts, n, rc, initial),
        actions_in(acts, n),
        below(initial, n),
        below(goals, n),
        is_dearest(goals, h.fact_costs@, goal),
        0 < h.fact_costs@[goal as int] < UNREACHED,
    ensures
        is_round(round_of(h, acts, rc, initial, goal), acts, rc, initial, goals),
{
    let r = round_of(h, acts, rc, initial, goal);
    let any = round_of(h, acts, rc, initial, 0);
    assert(h.fact_costs.len() == r.costs.len());
    assert forall|k: int| 0 <= k < r.settled.len() implies #[trigger] r.is_next(k) by {
        assert(any.is_next(k));
        lemma_next_stays(any, r, k);
    }
    assert forall|f: int| 0 <= f < r.costs.len() implies {
        &&& #[trigger] r.costs[f] != UNREACHED ==> costs_at_most(acts, rc, initial, f as usize, r.costs[f] as int)
        &&& forall|c: int| #[trigger] costs_at_most(acts, rc, initial, f as usize, c) ==> r.costs[f] <= c
    } by {
        assert(h.fact_costs@[f] == r.costs[f]);
        assert forall|c: int| #[trigger] costs_at_most(acts, rc, initial, f as usize, c) implies r.costs[f] <= c by {
            let k = choose|k: nat| #[trigger] costs_within(acts, rc, initial, f as usize, c, k);
            lemma_least_costs(h, acts, n, rc, initial, f as usize, c, k);
        }
    }
    assert forall|a: int| 0 <= a < acts.len() implies match #[trigger] r.deciding[a] {
        Some(p) => {
            &&& acts[a].pre.contains(p) && r.costs[p as int] != UNREACHED
            &&& is_last_of(r.settled, acts[a].pre, p)
            &&& forall|i: int| 0 <= i < acts[a].pre.len() ==> r.costs[#[trigger] acts[a].pre[i] as int] <= r.costs[p as int]
        },
        None => acts[a].pre.len() == 0 || exists|i: int|
            0 <= i < acts[a].pre.len() && r.costs[#[trigger] acts[a].pre[i] as int] == UNREACHED,
    } by {
        assert(h.supporters@[a] == r.deciding[a]);
        if h.supporters@[a] is None && acts[a].pre.len() > 0 {
            assert(!h.reached@[a]);
            let i = choose|i: int| 0 <= i < acts[a].pre.len() && !h.finite(#[trigger] acts[a].pre[i] as int);
            assert(r.costs[acts[a].pre[i] as int] == UNREACHED);
        }
    }
}

/// The deciding precondition of a free action that reaches the plateau is on it.
proof fn lemma_climb(r: Round, a: int, g: usize, f: usize)
    requires
        0 <= a < r.acts.len(),
        r.acts[a].add.contains(g),
        r.rc[a] == 0,
        r.deciding[a] == Some(f),
        r.zone(g),
    ensures
        r.zone(f),
{
    let n = choose|n: nat| #[trigger] r.on_plateau(g, n);
    assert(r.on_plateau(f, n + 1));
}

/// A set that holds the goal and is closed holds the plateau.
proof fn lemma_whole_zone(h: &HMaxValues, acts: Seq<ActionView>, n: nat, rc: Seq<u32>, initial: Seq<usize>, goal: usize, zone: Seq<bool>, f: usize, k: nat)
    requires
        finished(h, acts, n, rc, initial),
        actions_in(acts, n),
        zone.len() == n,
        goal < n,
        zone[goal as int],
        plateau(h, acts, rc, zone),
        round_of(h, acts, rc, initial, goal).on_plateau(f, k),
    ensures
        f < n,
        zone[f as int],
    decreases k,
{
    let r = round_of(h, acts, rc, initial, goal);
    if f != goal {
        let (a, g) = choose|a: int, g: usize|
            {
                &&& 0 <= a < acts.len()
                &&& #[trigger] acts[a].add.contains(g)
                &&& rc[a] == 0
                &&& r.deciding[a] == Some(f)
                &&& r.on_plateau(g, (k - 1) as nat)
            };
        lemma_whole_zone(h, acts, n, rc, initial, goal, zone, g, (k - 1) as nat);
        assert(h.supporters@[a] == Some(f));
        assert(action_in(acts[a], n));
        lemma_members_below(acts[a].pre, n, f);
    }
}

/// The marked action numbers.
spec fn marked_set(marks: Seq<bool>) -> Set<int> {
    Set::new(|a: int| 0 <= a < marks.len() && marks[a])
}

spec fn hits(act: ActionView, zone: Seq<bool>) -> bool {
    exists|f: usize| #[trigger] act.add.contains(f) && zone[f as int]
}

/// The facts on the goal plateau: they cost something, and free actions that add
/// one of them have their deciding precondition there.
spec fn plateau(h: &HMaxValues, acts: Seq<ActionView>, rc: Seq<u32>, zone: Seq<bool>) -> bool {
    &&& forall|f: int| 0 <= f < zone.len() && #[trigger] zone[f] ==> h.fact_costs@[f] > 0
    &&& forall|a: int, f: usize|
        0 <= a < acts.len() && #[trigger] acts[a].add.contains(f) && zone[f as int] && rc[a] == 0 && h.reached@[a] ==> (
        match h.supporters@[a] {
            Some(p) => zone[p as int],
            None => true,
        })
}

/// The action's deciding precondition is the node (the start node `n` for an
/// action without preconditions).
spec fn selected(h: &HMaxValues, a: int, node: int, n: int) -> bool {
    match h.supporters@[a] {
        Some(p) => p == node,
        None => node == n && h.reached@[a],
    }
}

/// An action selected at a node of the region before the plateau either enters
/// the cut or keeps its effects in the region.
spec fn handled(
    h: &HMaxValues,
    acts: Seq<ActionView>,
    rc: Seq<u32>,
    zone: Seq<bool>,
    region: Seq<bool>,
    in_cut: Seq<bool>,
    a: int,
) -> bool {
    if hits(acts[a], zone) {
        rc[a] > 0 ==> in_cut[a]
    } else {
        forall|f: usize| #[trigger] acts[a].add.contains(f) ==> region[f as int]
    }
}

spec fn node_handled(
    h: &HMaxValues,
    acts: Seq<ActionView>,
    rc: Seq<u32>,
    zone: Seq<bool>,
    region: Seq<bool>,
    in_cut: Seq<bool>,
    node: int,
    n: int,
) -> bool {
    forall|a: int|
        0 <= a < acts.len() && #[trigger] selected(h, a, node, n) ==> handled(h, acts, rc, zone, region, in_cut, a)
}

proof fn lemma_members_below(s: Seq<usize>, n: nat, f: usize)
    requires
        below(s, n),
        s.contains(f),
    ensures
        f < n,
{
    let k = choose|k: int| 0 <= k < s.len() && s[k] == f;
    assert(s[k] < n);
}

/// The marks of the plateau tell which actions arrive there.
proof fn lemma_arrives(r: Round, a: int, n: nat, zone: Seq<bool>)
    requires
        0 <= a < r.acts.len(),
        action_in(r.acts[a], n),
        zone.len() == n,
        forall|f: usize| f < n ==> #[trigger] zone[f as int] == r.zone(f),
    ensures
        hits(r.acts[a], zone) == r.arrives(a),
{
    if hits(r.acts[a], zone) {
        let f = choose|f: usize| #[trigger] r.acts[a].add.contains(f) && zone[f as int];
        lemma_members_below(r.acts[a].add, n, f);
        assert(zone[f as int] == r.zone(f));
    }
    if r.arrives(a) {
        let f = choose|f: usize| #[trigger] r.acts[a].add.contains(f) && r.zone(f);
        lemma_members_below(r.acts[a].add, n, f);
        assert(zone[f as int] == r.zone(f));
    }
}

/// What an action of the region adds is in the region, if the action does not arrive.
proof fn lemma_entered(r: Round, a: int, f: usize)
    requires
        0 <= a < r.acts.len(),
        r.departs(a),
        !r.arrives(a),
        r.acts[a].add.contains(f),
    ensures
        r.region(f),
{
    match r.deciding[a] {
        Some(p) => {
            let k = choose|k: nat| #[trigger] r.before_plateau(p, k);
            assert(r.before_plateau(f, k + 1));
        },
        None => {
            assert(r.before_plateau(f, 1));
        },
    }
}

/// A set that holds the start and is closed holds the region.
proof fn lemma_whole_region(
    h: &HMaxValues,
    acts: Seq<ActionView>,
    n: nat,
    rc: Seq<u32>,
    initial: Seq<usize>,
    goal: usize,
    zone: Seq<bool>,
    region: Seq<bool>,
    in_cut: Seq<bool>,
    f: usize,
    k: nat,
)
    requires
        finished(h, acts, n, rc, initial),
        actions_in(acts, n),
        below(initial, n),
        zone.len() == n,
        region.len() == n + 1,
        region[n as int],
        forall|g: usize| g < n ==> #[trigger] zone[g as int] == round_of(h, acts, rc, initial, goal).zone(g),
        forall|i: int| 0 <= i < initial.len() ==> zone[#[trigger] initial[i] as int] || region[initial[i] as int],
        forall|node: int| 0 <= node <= n && #[trigger] region[node] ==> node_handled(h, acts, rc, zone, region, in_cut, node, n as int),
        round_of(h, acts, rc, initial, goal).before_plateau(f, k),
    ensures
        f < n,
        region[f as int],
    decreases k,
{
    let r = round_of(h, acts, rc, initial, goal);
    if initial.contains(f) && !r.zone(f) {
        let i = choose|i: int| 0 <= i < initial.len() && initial[i] == f;
        assert(initial[i] < n);
        assert(zone[f as int] == r.zone(f));
        assert(zone[initial[i] as int] || region[initial[i] as int]);
    } else {
        let a = choose|a: int|
            {
                &&& 0 <= a < r.acts.len()
                &&& (#[trigger] r.acts[a]).add.contains(f)
                &&& !r.arrives(a)
                &&& match r.deciding[a] {
                    Some(p) => r.before_plateau(p, (k - 1) as nat),
                    None => r.acts[a].pre.len() == 0,
                }
            };
        assert(action_in(acts[a], n));
        lemma_members_below(acts[a].add, n, f);
        let node: int = match h.supporters@[a] {
            Some(p) => p as int,
            None => n as int,
        };
        match h.supporters@[a] {
            Some(p) => {
                lemma_whole_region(h, acts, n, rc, initial, goal, zone, region, in_cut, p, (k - 1) as nat);
            },
            None => {
                assert(h.reached@[a]);
            },
        }
        assert(region[node]);
        assert(selected(h, a, node, n as int));
        assert(node_handled(h, acts, rc, zone, region, in_cut, node, n as int));
        assert(handled(h, acts, rc, zone, region, in_cut, a));
        lemma_arrives(r, a, n, zone);
    }
}

/// Reachability depends on the admitted actions only.
proof fn lemma_layer_same(acts: Seq<ActionView>, p: spec_fn(int) -> bool, q: spec_fn(int) -> bool, initial: Seq<usize>, k: nat)
    requires
        forall|a: int| 0 <= a < acts.len() ==> #[trigger] p(a) == q(a),
    ensures
        layer(acts, p, initial, k) == layer(acts, q, initial, k),
    decreases k,
{
    if k > 0 {
        lemma_layer_same(acts, p, q, initial, (k - 1) as nat);
        let before = layer(acts, p, initial, (k - 1) as nat);
        assert forall|f: usize| added(acts, p, before, f) == added(acts, q, before, f) by {
            if added(acts, p, before, f) {
                let a = choose|a: int| 0 <= a < acts.len() && p(a) && enabled(#[trigger] acts[a], before) && acts[a].add.contains(f);
                assert(q(a));
            }
            if added(acts, q, before, f) {
                let a = choose|a: int| 0 <= a < acts.len() && q(a) && enabled(#[trigger] acts[a], before) && acts[a].add.contains(f);
                assert(p(a));
            }
        }
        assert(layer(acts, p, initial, k) =~= layer(acts, q, initial, k));
    }
}

proof fn lemma_reachable_same(acts: Seq<ActionView>, p: spec_fn(int) -> bool, q: spec_fn(int) -> bool, initial: Seq<usize>, fact: usize)
    requires
        forall|a: int| 0 <= a < acts.len() ==> #[trigger] p(a) == q(a),
        reachable(acts, p, initial, fact),
    ensures
        reachable(acts, q, initial, fact),
{
    let k = choose|k: nat| #[trigger] layer(acts, p, initial, k).contains(fact);
    lemma_layer_same(acts, p, q, initial, k);
    assert(layer(acts, q, initial, k).contains(fact));
}

proof fn lemma_sum_drop(old_costs: Seq<u32>, new_costs: Seq<u32>, k: int, c: nat)
    requires
        old_costs.len() == new_costs.len(),
        0 <= k < old_costs.len(),
        forall|i: int| 0 <= i < old_costs.len() ==> #[trigger] new_costs[i] <= old_costs[i],
        new_costs[k] + c <= old_costs[k],
    ensures
        sum_costs(new_costs) + c <= sum_costs(old_costs),
    decreases old_costs.len(),
{
    let o = old_costs.drop_last();
    let w = new_costs.drop_last();
    assert(new_costs[old_costs.len() - 1] <= old_costs[old_costs.len() - 1]);
    if k == old_costs.len() - 1 {
        lemma_sum_le(o, w);
    } else {
        assert forall|i: int| 0 <= i < o.len() implies #[trigger] w[i] <= o[i] by {
            assert(new_costs[i] <= old_costs[i]);
        }
        lemma_sum_drop(o, w, k, c);
    }
}

proof fn lemma_sum_le(old_costs: Seq<u32>, new_costs: Seq<u32>)
    requires
        old_costs.len() == new_costs.len(),
        forall|i: int| 0 <= i < old_costs.len() ==> #[trigger] new_costs[i] <= old_costs[i],
    ensures
        sum_costs(new_costs) <= sum_costs(old_costs),
    decreases old_costs.len(),
{
    if old_costs.len() > 0 {
        let o = old_costs.drop_last();
        let w = new_costs.drop_last();
        assert(new_costs[old_costs.len() - 1] <= old_costs[old_costs.len() - 1]);
        assert forall|i: int| 0 <= i < o.len() implies #[trigger] w[i] <= o[i] by {
            assert(new_costs[i] <= old_costs[i]);
        }
        lemma_sum_le(o, w);
    }
}

fn add_false(n: usize) -> (res: Vec<bool>)
    ensures
        res@.len() == n,
        forall|i: int| 0 <= i < n ==> !(#[trigger] res@[i]),
{
    let mut res: Vec<bool> = Vec::new();
    let mut i: usize = 0;
    while i < n
        invariant
            i <= n,
            res@.len() == i,
            forall|k: int| 0 <= k < i ==> !(#[trigger] res@[k]),
        decreases n - i,
    {
        res.push(false);
        i = i + 1;
    }
    res
}

fn any_marked(marks: &Vec<bool>, facts: &Vec<usize>) -> (res: bool)
    requires
        below(facts@, marks@.len()),
    ensures
        res == exists|f: usize| #[trigger] facts@.contains(f) && marks@[f as int],
{
    let mut i: usize = 0;
    while i < facts.len()
        invariant
            i <= facts@.len(),
            below(facts@, marks@.len()),
            forall|k: int| 0 <= k < i ==> !marks@[#[trigger] facts@[k] as int],
        decreases facts@.len() - i,
    {
        if marks[facts[i]] {
            assert(facts@.contains(facts@[i as int]));
            return true;
        }
        i = i + 1;
    }
    assert forall|f: usize| #[trigger] facts@.contains(f) implies !marks@[f as int] by {
        let k = choose|k: int| 0 <= k < facts@.len() && facts@[k] == f;
        assert(!marks@[facts@[k] as int]);
    }
    false
}

impl RelaxedTask {
    /// Follows free achievers backwards from the goal to obtain the complete goal
    /// plateau.
    fn goal_zone(&self, h: &HMaxValues, rc: &Vec<u32>, goal: usize, Ghost(initial): Ghost<Seq<usize>>) -> (zone: Vec<bool>)
        requires
            self.wf(),
            finished(h, self.acts(), self.facts(), rc@, initial),
            rc@.len() == self.acts().len(),
            goal < self.facts(),
            h.fact_costs@[goal as int] > 0,
        ensures
            zone@.len() == self.facts(),
            zone@[goal as int],
            plateau(h, self.acts(), rc@, zone@),
            forall|f: usize|
                f < self.facts() ==> #[trigger] zone@[f as int] == round_of(h, self.acts(), rc@, initial, goal).zone(f),
    {
        let ghost acts = self.acts();
        let ghost r = round_of(h, acts, rc@, initial, goal);
        let ghost n = self.facts();
        let m = self.actions.len();
        let mut zone = add_false(self.num_facts);
        let mut stack: Vec<usize> = Vec::new();
        stack.push(goal);
        assert(stack@.contains(goal)) by {
            assert(stack@[0] == goal);
        }
        assert(r.on_plateau(goal, 0));
        while stack.len() > 0
            invariant
                self.wf(),
                acts == self.acts(),
                m == acts.len(),
                n == self.facts(),
                finished(h, acts, n, rc@, initial),
                rc@.len() == acts.len(),
                zone@.len() == n,
                goal < n,
                zone@[goal as int] || stack@.contains(goal),
                r == round_of(h, acts, rc@, initial, goal),
                forall|f: usize| f < n && #[trigger] zone@[f as int] ==> r.zone(f),
                forall|i: int| 0 <= i < stack@.len() ==> r.zone(#[trigger] stack@[i]),
                forall|i: int| 0 <= i < stack@.len() ==> #[trigger] stack@[i] < n && h.fact_costs@[stack@[i] as int] > 0,
                forall|f: int| 0 <= f < n && #[trigger] zone@[f] ==> h.fact_costs@[f] > 0,
                forall|a: int, f: usize|
                    0 <= a < acts.len() && #[trigger] acts[a].add.contains(f) && zone@[f as int] && rc@[a] == 0 && h.reached@[a] ==> (
                    match h.supporters@[a] {
                        Some(p) => zone@[p as int] || stack@.contains(p),
                        None => true,
                    }),
            decreases unmarked(zone@), stack@.len(),
        {
            let ghost before = stack@;
            let fact = stack.pop().unwrap();
            assert(before.last() == fact);
            assert(before[before.len() - 1] == fact);
            let ghost rest = stack@;
            assert forall|x: usize| before.contains(x) implies x == fact || rest.contains(x) by {
                let k = choose|k: int| 0 <= k < before.len() && before[k] == x;
                if k < before.len() - 1 {
                    assert(rest[k] == x);
                }
            }
            assert forall|i: int| 0 <= i < rest.len() implies #[trigger] rest[i] < n && h.fact_costs@[rest[i] as int] > 0 && r.zone(rest[i]) by {
                assert(rest[i] == before[i]);
            }
            assert(r.zone(fact));
            if !zone[fact] {
                proof {
                    lemma_mark(zone@, fact as int);
                }
                let ghost old_zone = zone@;
                zone.set(fact, true);
                let mut k: usize = 0;
                while k < self.effect_of[fact].len()
                    invariant
                        self.wf(),
                        acts == self.acts(),
                        n == self.facts(),
                        finished(h, acts, n, rc@, initial),
                        rc@.len() == acts.len(),
                        fact < n,
                        zone@.len() == n,
                        old_zone.len() == n,
                        zone@ == old_zone.update(fact as int, true),
                        h.fact_costs@[fact as int] > 0,
                        k <= self.effect_of@[fact as int]@.len(),
                        forall|x: usize| rest.contains(x) ==> #[trigger] stack@.contains(x),
                        forall|i: int| 0 <= i < stack@.len() ==> #[trigger] stack@[i] < n && h.fact_costs@[stack@[i] as int] > 0,
                        r == round_of(h, acts, rc@, initial, goal),
                        r.zone(fact),
                        forall|i: int| 0 <= i < stack@.len() ==> r.zone(#[trigger] stack@[i]),
                        forall|i: int|
                            0 <= i < k ==> {
                                let a = #[trigger] self.effect_of@[fact as int]@[i] as int;
                                rc@[a] == 0 && h.reached@[a] ==> (match h.supporters@[a] {
                                    Some(p) => zone@[p as int] || stack@.contains(p),
                                    None => true,
                                })
                            },
                    decreases self.effect_of@[fact as int]@.len() - k,
                {
                    let a = self.effect_of[fact][k];
                    assert(self.effect_of@[fact as int]@.contains(a));
                    assert(acts[a as int].add.contains(fact));
                    if rc[a] == 0 && h.reached[a] {
                        if let Some(p) = h.supporters[a] {
                            assert(action_in(acts[a as int], n));
                            proof {
                                lemma_members_below(acts[a as int].pre, n, p);
                                assert(h.fact_costs@[fact as int] <= effect_bound(h.fact_costs@, h.supporters@[a as int], rc@[a as int]));
                            }
                            proof {
                                lemma_climb(r, a as int, fact, p);
                            }
                            if !zone[p] {
                                let ghost mid = stack@;
                                stack.push(p);
                                proof {
                                    assert(stack@[mid.len() as int] == p);
                                    assert forall|x: usize| mid.contains(x) implies #[trigger] stack@.contains(x) by {
                                        let j = choose|j: int| 0 <= j < mid.len() && mid[j] == x;
                                        assert(stack@[j] == x);
                                    }
                                }
                            }
                        }
                    }
                    k = k + 1;
                }
                proof {
                    assert forall|a: int, f: usize|
                        0 <= a < acts.len() && #[trigger] acts[a].add.contains(f) && zone@[f as int] && rc@[a] == 0 && h.reached@[a] implies (
                    match h.supporters@[a] {
                        Some(p) => zone@[p as int] || stack@.contains(p),
                        None => true,
                    }) by {
                        assert(action_in(acts[a], n));
                        lemma_members_below(acts[a].add, n, f);
                        if f == fact {
                            assert(self.effect_of@[fact as int]@.contains(a as usize));
                            let list = self.effect_of@[fact as int]@;
                            let i = choose|i: int| 0 <= i < list.len() && list[i] == a as usize;
                            assert(self.effect_of@[fact as int]@[i] as int == a);
                        } else {
                            assert(old_zone[f as int]);
                            match h.supporters@[a] {
                                Some(p) => {
                                    lemma_members_below(acts[a].pre, n, p);
                                    if !old_zone[p as int] {
                                        assert(before.contains(p));
                                    }
                                },
                                None => {},
                            }
                        }
                    }
                    if !old_zone[goal as int] && goal != fact {
                        assert(before.contains(goal));
                        assert(stack@.contains(goal));
                    }
                }
            } else {
                proof {
                    assert forall|a: int, f: usize|
                        0 <= a < acts.len() && #[trigger] acts[a].add.contains(f) && zone@[f as int] && rc@[a] == 0 && h.reached@[a] implies (
                    match h.supporters@[a] {
                        Some(p) => zone@[p as int] || stack@.contains(p),
                        None => true,
                    }) by {
                        match h.supporters@[a] {
                            Some(p) => {
                                if !zone@[p as int] {
                                    assert(before.contains(p));
                                }
                            },
                            None => {},
                        }
                    }
                }
            }
        }
        proof {
            assert forall|f: usize| f < n implies #[trigger] zone@[f as int] == r.zone(f) by {
                if r.zone(f) {
                    let k = choose|k: nat| #[trigger] r.on_plateau(f, k);
                    lemma_whole_zone(h, acts, n, rc@, initial, goal, zone@, f, k);
                }
            }
        }
        zone
    }
}

impl RelaxedTask {
    /// The actions that a node of the exploration leads to.
    fn actions_at(&self, node: usize) -> (res: &Vec<usize>)
        requires
            self.wf(),
            node <= self.facts(),
        ensures
            forall|a: usize|
                #[trigger] res@.contains(a) <==> (a < self.acts().len() && (if node == self.facts() {
                    self.acts()[a as int].pre.len() == 0
                } else {
                    self.acts()[a as int].pre.contains(node)
                })),
    {
        if node == self.num_facts {
            &self.no_preconditions
        } else {
            &self.precondition_of[node]
        }
    }

    /// Explores the justification graph from the relaxed initial state. An action
    /// enters the cut when its deciding edge crosses from the before-goal region
    /// into the goal plateau.
    fn explore(&self, h: &HMaxValues, rc: &Vec<u32>, initial: &Vec<usize>, zone: &Vec<bool>, Ghost(goal): Ghost<usize>) -> (in_cut: Vec<bool>)
        requires
            self.wf(),
            self.facts() < usize::MAX,
            finished(h, self.acts(), self.facts(), rc@, initial@),
            rc@.len() == self.acts().len(),
            below(initial@, self.facts()),
            zone@.len() == self.facts(),
            plateau(h, self.acts(), rc@, zone@),
            forall|f: usize|
                f < self.facts() ==> #[trigger] zone@[f as int] == round_of(h, self.acts(), rc@, initial@, goal).zone(f),
        ensures
            in_cut@.len() == self.acts().len(),
            marked_set(in_cut@) == round_of(h, self.acts(), rc@, initial@, goal).cut(),
    {
        let ghost acts = self.acts();
        let ghost r = round_of(h, acts, rc@, initial@, goal);
        let n = self.num_facts;
        let m = self.actions.len();
        let mut region = add_false(n + 1);
        let mut in_cut = add_false(m);
        let mut queue: Vec<usize> = Vec::new();
        region.set(n, true);
        queue.push(n);
        assert(queue@[0] == n);
        let mut i: usize = 0;
        while i < initial.len()
            invariant
                n == self.facts(),
                i <= initial@.len(),
                below(initial@, n as nat),
                zone@.len() == n,
                region@.len() == n + 1,
                region@[n as int],
                forall|node: int| 0 <= node <= n && #[trigger] region@[node] ==> queue@.contains(node as usize),
                forall|k: int| 0 <= k < queue@.len() ==> #[trigger] queue@[k] <= n,
                forall|f: int| 0 <= f < n && #[trigger] region@[f] ==> !zone@[f],
                forall|k: int| 0 <= k < i ==> zone@[#[trigger] initial@[k] as int] || region@[initial@[k] as int],
                r.initial == initial@,
                forall|f: usize| f < n ==> #[trigger] zone@[f as int] == r.zone(f),
                forall|f: usize| f < n && #[trigger] region@[f as int] ==> r.region(f),
                forall|k: int| 0 <= k < queue@.len() ==> region@[#[trigger] queue@[k] as int],
            decreases initial@.len() - i,
        {
            let fact = initial[i];
            assert(initial@.contains(fact));
            if !zone[fact] && !region[fact] {
                assert(r.before_plateau(fact, 0));
                let ghost mid = queue@;
                region.set(fact, true);
                queue.push(fact);
                proof {
                    assert(queue@[mid.len() as int] == fact);
                    assert forall|node: int| 0 <= node <= n && #[trigger] region@[node] implies queue@.contains(node as usize) by {
                        if node != fact {
                            assert(mid.contains(node as usize));
                            let j = choose|j: int| 0 <= j < mid.len() && mid[j] == node as usize;
                            assert(queue@[j] == node as usize);
                        }
                    }
                }
            }
            i = i + 1;
        }
        while queue.len() > 0
            invariant
                self.wf(),
                acts == self.acts(),
                m == acts.len(),
                n == self.facts(),
                n < usize::MAX,
                finished(h, acts, n as nat, rc@, initial@),
                below(initial@, n as nat),
                rc@.len() == acts.len(),
                zone@.len() == n,
                region@.len() == n + 1,
                in_cut@.len() == m,
                region@[n as int],
                r == round_of(h, acts, rc@, initial@, goal),
                forall|f: usize| f < n ==> #[trigger] zone@[f as int] == r.zone(f),
                forall|f: usize| f < n && #[trigger] region@[f as int] ==> r.region(f),
                forall|k: int| 0 <= k < queue@.len() ==> region@[#[trigger] queue@[k] as int],
                forall|a: int| 0 <= a < m && #[trigger] in_cut@[a] ==> r.cut().contains(a),
                forall|k: int| 0 <= k < queue@.len() ==> #[trigger] queue@[k] <= n,
                forall|f: int| 0 <= f < n && #[trigger] region@[f] ==> !zone@[f],
                forall|k: int| 0 <= k < initial@.len() ==> zone@[#[trigger] initial@[k] as int] || region@[initial@[k] as int],
                forall|a: int| 0 <= a < m && #[trigger] in_cut@[a] ==> rc@[a] > 0,
                forall|node: int|
                    0 <= node <= n && #[trigger] region@[node] ==> queue@.contains(node as usize) || node_handled(
                        h,
                        acts,
                        rc@,
                        zone@,
                        region@,
                        in_cut@,
                        node,
                        n as int,
                    ),
            decreases unmarked(region@), queue@.len(),
        {
            let ghost before = queue@;
            let node = queue.pop().unwrap();
            assert(before[before.len() - 1] == node);
            let ghost rest = queue@;
            let ghost region0 = region@;
            let ghost cut0 = in_cut@;
            proof {
                assert forall|x: usize| before.contains(x) implies x == node || rest.contains(x) by {
                    let k = choose|k: int| 0 <= k < before.len() && before[k] == x;
                    if k < before.len() - 1 {
                        assert(rest[k] == x);
                    }
                }
                assert forall|k: int| 0 <= k < rest.len() implies #[trigger] rest[k] <= n && region@[rest[k] as int] by {
                    assert(rest[k] == before[k]);
                }
                assert(region@[node as int]);
            }
            let list = self.actions_at(node);
            let mut k: usize = 0;
            while k < list.len()
                invariant
                    self.wf(),
                    acts == self.acts(),
                    m == acts.len(),
                    n == self.facts(),
                    n < usize::MAX,
                    node <= n,
                    finished(h, acts, n as nat, rc@, initial@),
                    rc@.len() == acts.len(),
                    zone@.len() == n,
                    region@.len() == n + 1,
                    in_cut@.len() == m,
                    region0.len() == n + 1,
                    cut0.len() == m,
                    k <= list@.len(),
                    forall|a: usize|
                        #[trigger] list@.contains(a) <==> (a < acts.len() && (if node == n {
                            acts[a as int].pre.len() == 0
                        } else {
                            acts[a as int].pre.contains(node)
                        })),
                    r == round_of(h, acts, rc@, initial@, goal),
                    forall|f: usize| f < n ==> #[trigger] zone@[f as int] == r.zone(f),
                    forall|f: usize| f < n && #[trigger] region@[f as int] ==> r.region(f),
                    forall|j: int| 0 <= j < queue@.len() ==> region@[#[trigger] queue@[j] as int],
                    forall|b: int| 0 <= b < m && #[trigger] in_cut@[b] ==> r.cut().contains(b),
                    region0[node as int],
                    forall|j: int| 0 <= j < queue@.len() ==> #[trigger] queue@[j] <= n,
                    forall|x: usize| rest.contains(x) ==> #[trigger] queue@.contains(x),
                    forall|f: int| 0 <= f <= n && #[trigger] region0[f] ==> region@[f],
                    forall|f: int| 0 <= f <= n && #[trigger] region@[f] ==> region0[f] || queue@.contains(f as usize),
                    forall|f: int| 0 <= f < n && #[trigger] region@[f] ==> !zone@[f],
                    forall|a: int| 0 <= a < m && #[trigger] cut0[a] ==> in_cut@[a],
                    forall|a: int| 0 <= a < m && #[trigger] in_cut@[a] ==> rc@[a] > 0,
                    forall|j: int|
                        0 <= j < k && selected(h, #[trigger] list@[j] as int, node as int, n as int) ==> handled(
                            h,
                            acts,
                            rc@,
                            zone@,
                            region@,
                            in_cut@,
                            list@[j] as int,
                        ),
                    unmarked(region@) < unmarked(region0) || (unmarked(region@) == unmarked(region0) && queue@ == rest),
                decreases list@.len() - k,
            {
                let a = list[k];
                assert(list@.contains(a));
                assert(acts[a as int] == self.actions@[a as int]@);
                assert(action_in(acts[a as int], n as nat));
                let ghost region1 = region@;
                let ghost cut1 = in_cut@;
                let is_selected = match h.supporters[a] {
                    Some(p) => p == node,
                    None => node == n && h.reached[a],
                };
                if is_selected {
                    proof {
                        assert(region@[node as int]);
                        assert(r.departs(a as int)) by {
                            match h.supporters@[a as int] {
                                Some(p) => {
                                    lemma_members_below(acts[a as int].pre, n as nat, p);
                                },
                                None => {},
                            }
                        }
                        assert(hits(acts[a as int], zone@) == r.arrives(a as int)) by {
                            lemma_arrives(r, a as int, n as nat, zone@);
                        }
                    }
                    if any_marked(zone, &self.actions[a].effects) {
                        if rc[a] > 0 {
                            assert(r.cut().contains(a as int));
                            in_cut.set(a, true);
                        }
                    } else {
                        self.enter(&mut region, &mut queue, a, zone);
                        proof {
                            assert forall|f: usize| f < n && #[trigger] region@[f as int] implies r.region(f) by {
                                if !region1[f as int] {
                                    lemma_entered(r, a as int, f);
                                }
                            }
                        }
                    }
                }
                proof {
                    assert forall|j: int| 0 <= j < k + 1 && selected(h, #[trigger] list@[j] as int, node as int, n as int) implies handled(
                        h,
                        acts,
                        rc@,
                        zone@,
                        region@,
                        in_cut@,
                        list@[j] as int,
                    ) by {
                        let b = list@[j] as int;
                        assert(list@.contains(list@[j]));
                        if j < k {
                            assert(handled(h, acts, rc@, zone@, region1, cut1, b));
                            assert(action_in(acts[b], n as nat));
                            assert forall|f: usize| #[trigger] acts[b].add.contains(f) && region1[f as int] implies region@[f as int] by {
                                lemma_members_below(acts[b].add, n as nat, f);
                            }
                        }
                    }
                }
                k = k + 1;
            }
            proof {
                assert forall|j: int| 0 <= j < initial@.len() implies zone@[#[trigger] initial@[j] as int] || region@[initial@[j] as int] by {
                    assert(initial@[j] < n);
                    if !zone@[initial@[j] as int] {
                        assert(region0[initial@[j] as int]);
                    }
                }
                assert forall|x: int| 0 <= x <= n && #[trigger] region@[x] implies queue@.contains(x as usize) || node_handled(
                    h,
                    acts,
                    rc@,
                    zone@,
                    region@,
                    in_cut@,
                    x,
                    n as int,
                ) by {
                    if !queue@.contains(x as usize) {
                        assert(region0[x]);
                        if x == node {
                            assert forall|a: int| 0 <= a < acts.len() && #[trigger] selected(h, a, x, n as int) implies handled(
                                h,
                                acts,
                                rc@,
                                zone@,
                                region@,
                                in_cut@,
                                a,
                            ) by {
                                assert(list@.contains(a as usize)) by {
                                    match h.supporters@[a] {
                                        Some(p) => {
                                            assert(acts[a].pre.contains(p));
                                            assert(action_in(acts[a], n as nat));
                                            lemma_members_below(acts[a].pre, n as nat, p);
                                        },
                                        None => {},
                                    }
                                }
                                let j = choose|j: int| 0 <= j < list@.len() && list@[j] == a as usize;
                                assert(selected(h, list@[j] as int, node as int, n as int));
                            }
                        } else {
                            if before.contains(x as usize) {
                                assert(rest.contains(x as usize));
                            }
                            assert(node_handled(h, acts, rc@, zone@, region0, cut0, x, n as int));
                            assert forall|a: int| 0 <= a < acts.len() && #[trigger] selected(h, a, x, n as int) implies handled(
                                h,
                                acts,
                                rc@,
                                zone@,
                                region@,
                                in_cut@,
                                a,
                            ) by {
                                assert(handled(h, acts, rc@, zone@, region0, cut0, a));
                                assert(action_in(acts[a], n as nat));
                                assert forall|f: usize| #[trigger] acts[a].add.contains(f) && region0[f as int] implies region@[f as int] by {
                                    lemma_members_below(acts[a].add, n as nat, f);
                                }
                            }
                        }
                    }
                }
            }
        }
        proof {
            assert(marked_set(in_cut@) =~= r.cut()) by {
                assert forall|a: int| r.cut().contains(a) implies in_cut@[a] by {
                    assert(action_in(acts[a], n as nat));
                    lemma_arrives(r, a, n as nat, zone@);
                    let node: int = match h.supporters@[a] {
                        Some(p) => p as int,
                        None => n as int,
                    };
                    match h.supporters@[a] {
                        Some(p) => {
                            let k = choose|k: nat| #[trigger] r.before_plateau(p, k);
                            lemma_whole_region(h, acts, n as nat, rc@, initial@, goal, zone@, region@, in_cut@, p, k);
                        },
                        None => {},
                    }
                    assert(region@[node]);
                    assert(selected(h, a, node, n as int));
                    assert(node_handled(h, acts, rc@, zone@, region@, in_cut@, node, n as int));
                    assert(handled(h, acts, rc@, zone@, region@, in_cut@, a));
                }
            }
        }
        in_cut
    }

    /// Adds the effects of an action to the region and to the queue.
    fn enter(&self, region: &mut Vec<bool>, queue: &mut Vec<usize>, a: usize, zone: &Vec<bool>)
        requires
            self.wf(),
            self.facts() < usize::MAX,
            a < self.acts().len(),
            old(region)@.len() == self.facts() + 1,
            zone@.len() == self.facts(),
            !hits(self.acts()[a as int], zone@),
            forall|j: int| 0 <= j < old(queue)@.len() ==> #[trigger] old(queue)@[j] <= self.facts(),
        ensures
            final(region)@.len() == old(region)@.len(),
            forall|j: int| 0 <= j < final(queue)@.len() ==> #[trigger] final(queue)@[j] <= self.facts(),
            forall|x: usize| old(queue)@.contains(x) ==> #[trigger] final(queue)@.contains(x),
            forall|f: int| 0 <= f <= self.facts() && #[trigger] old(region)@[f] ==> final(region)@[f],
            forall|f: int|
                0 <= f <= self.facts() && #[trigger] final(region)@[f] ==> old(region)@[f] || final(queue)@.contains(f as usize),
            forall|f: int|
                0 <= f < self.facts() && #[trigger] final(region)@[f] ==> old(region)@[f] || !zone@[f],
            forall|f: usize| #[trigger] self.acts()[a as int].add.contains(f) ==> final(region)@[f as int],
            forall|f: usize|
                f < self.facts() && #[trigger] final(region)@[f as int] ==> old(region)@[f as int] || self.acts()[a as int].add.contains(f),
            (forall|j: int| 0 <= j < old(queue)@.len() ==> old(region)@[#[trigger] old(queue)@[j] as int]) ==> forall|j: int|
                0 <= j < final(queue)@.len() ==> final(region)@[#[trigger] final(queue)@[j] as int],
            unmarked(final(region)@) < unmarked(old(region)@) || (final(region)@ == old(region)@ && final(queue)@ == old(queue)@),
    {
        let ghost region0 = region@;
        let ghost queue0 = queue@;
        let ghost act = self.acts()[a as int];
        let n = self.num_facts;
        assert(act == self.actions@[a as int]@);
        assert(action_in(act, self.facts()));
        let effects = &self.actions[a].effects;
        let mut i: usize = 0;
        while i < effects.len()
            invariant
                region0 == old(region)@,
                queue0 == old(queue)@,
                n == self.facts(),
                act.add == effects@,
                below(effects@, n as nat),
                !hits(act, zone@),
                zone@.len() == n,
                region0.len() == n + 1,
                region@.len() == n + 1,
                i <= effects@.len(),
                forall|j: int| 0 <= j < queue@.len() ==> #[trigger] queue@[j] <= n,
                forall|x: usize| queue0.contains(x) ==> #[trigger] queue@.contains(x),
                forall|f: int| 0 <= f <= n && #[trigger] region0[f] ==> region@[f],
                forall|f: int| 0 <= f <= n && #[trigger] region@[f] ==> region0[f] || queue@.contains(f as usize),
                forall|f: int| 0 <= f < n && #[trigger] region@[f] ==> region0[f] || !zone@[f],
                forall|f: usize| f < n && #[trigger] region@[f as int] ==> region0[f as int] || act.add.contains(f),
                (forall|j: int| 0 <= j < queue0.len() ==> region0[#[trigger] queue0[j] as int]) ==> forall|j: int|
                    0 <= j < queue@.len() ==> region@[#[trigger] queue@[j] as int],
                forall|j: int| 0 <= j < i ==> region@[#[trigger] effects@[j] as int],
                unmarked(region@) < unmarked(region0) || (region@ == region0 && queue@ == queue0),
            decreases effects@.len() - i,
        {
            let fact = effects[i];
            if !region[fact] {
                let ghost mid = queue@;
                let ghost r1 = region@;
                proof {
                    lemma_mark(region@, fact as int);
                    assert(act.add.contains(fact));
                }
                region.set(fact, true);
                queue.push(fact);
                proof {
                    assert(queue@[mid.len() as int] == fact);
                    assert forall|x: usize| mid.contains(x) implies #[trigger] queue@.contains(x) by {
                        let j = choose|j: int| 0 <= j < mid.len() && mid[j] == x;
                        assert(queue@[j] == x);
                    }
                    assert forall|f: int| 0 <= f <= n && #[trigger] region@[f] implies region0[f] || queue@.contains(f as usize) by {
                        if f != fact {
                            assert(r1[f]);
                            if !region0[f] {
                                assert(mid.contains(f as usize));
                            }
                        }
                    }
                    assert forall|f: int| 0 <= f < n && #[trigger] region@[f] implies region0[f] || !zone@[f] by {
                        if f != fact {
                            assert(r1[f]);
                        }
                    }
                    assert forall|f: int| 0 <= f <= n && #[trigger] region0[f] implies region@[f] by {
                        assert(r1[f]);
                    }
                    assert forall|j: int| 0 <= j < i implies region@[#[trigger] effects@[j] as int] by {
                        assert(r1[effects@[j] as int]);
                    }
                }
            }
            i = i + 1;
        }
        proof {
            assert forall|f: usize| #[trigger] act.add.contains(f) implies region@[f as int] by {
                let j = choose|j: int| 0 <= j < effects@.len() && effects@[j] == f;
                assert(region@[effects@[j] as int]);
            }
        }
    }
}

spec fn costs_are(acts: Seq<ActionView>, cuts: Seq<Cut>, rc: Seq<u32>) -> bool {
    &&& rc.len() == acts.len()
    &&& forall|a: int| 0 <= a < acts.len() ==> #[trigger] rc[a] == residual(acts, cuts, a)
}

/// The cuts found so far stay cuts when another one is found.
proof fn lemma_push_cut(acts: Seq<ActionView>, initial: Seq<usize>, goals: Seq<usize>, cuts: Seq<Cut>, cut: Cut)
    requires
        forall|k: int| 0 <= k < cuts.len() ==> #[trigger] cut_in_turn(acts, initial, goals, cuts, k),
        cut.cost > 0,
        is_lm_cut(acts, residuals(acts, cuts), initial, goals, cut.actions),
        forall|a: int| #[trigger] cut.actions.contains(a) ==> 0 <= a < acts.len() && residual(acts, cuts, a) >= cut.cost,
        exists|a: int| #[trigger] cut.actions.contains(a) && residual(acts, cuts, a) == cut.cost,
    ensures
        forall|k: int| 0 <= k < cuts.push(cut).len() ==> #[trigger] cut_in_turn(acts, initial, goals, cuts.push(cut), k),
{
    let now = cuts.push(cut);
    assert forall|k: int| 0 <= k < now.len() implies #[trigger] cut_in_turn(acts, initial, goals, now, k) by {
        if k < cuts.len() {
            assert(cut_in_turn(acts, initial, goals, cuts, k));
            assert(now.take(k) =~= cuts.take(k));
        } else {
            assert(now.take(k) =~= cuts);
        }
    }
}

/// Whether all goals are payable.
pub open spec fn all_payable(acts: Seq<ActionView>, initial: Seq<usize>, goals: Seq<usize>) -> bool {
    forall|i: int| 0 <= i < goals.len() ==> is_payable(acts, initial, #[trigger] goals[i])
}

/// What evaluating LM-cut leads to: the value, as far as it is below the mark, or `None`
/// where some goal is not payable.
pub open spec fn is_lm_cut_result(acts: Seq<ActionView>, initial: Seq<usize>, goals: Seq<usize>, res: Option<u32>) -> bool {
    match res {
        Some(v) => all_payable(acts, initial, goals) && exists|value: nat| #[trigger]
            is_lm_cut_value(acts, initial, goals, value) && v == capped(value),
        None => !all_payable(acts, initial, goals),
    }
}

/// What is paid for under some costs is paid for under lower ones.
proof fn lemma_costs_lower(acts: Seq<ActionView>, rc: Seq<u32>, low: Seq<u32>, initial: Seq<usize>, f: usize, c: int, n: nat)
    requires
        forall|a: int| 0 <= a < acts.len() ==> #[trigger] low[a] <= rc[a],
        costs_within(acts, rc, initial, f, c, n),
    ensures
        costs_within(acts, low, initial, f, c, n),
    decreases n,
{
    if !initial.contains(f) {
        let a = choose|a: int|
            {
                &&& 0 <= a < acts.len()
                &&& (#[trigger] acts[a]).add.contains(f)
                &&& rc[a] <= c
                &&& forall|i: int|
                    0 <= i < acts[a].pre.len() ==> costs_within(acts, rc, initial, #[trigger] acts[a].pre[i], c - rc[a], (n - 1) as nat)
            };
        assert(low[a] <= rc[a]);
        assert forall|i: int| 0 <= i < acts[a].pre.len() implies costs_within(
            acts,
            low,
            initial,
            #[trigger] acts[a].pre[i],
            c - low[a],
            (n - 1) as nat,
        ) by {
            lemma_costs_lower(acts, rc, low, initial, acts[a].pre[i], c - rc[a], (n - 1) as nat);
            lemma_costs_grow(acts, low, initial, acts[a].pre[i], c - rc[a], (n - 1) as nat, c - low[a], (n - 1) as nat);
        }
    }
}

/// The LM-cut value of the goals: the total of some complete sequence of cuts.
pub open spec fn is_lm_cut_value(acts: Seq<ActionView>, initial: Seq<usize>, goals: Seq<usize>, value: nat) -> bool {
    exists|cuts: Seq<Cut>| #[trigger] cut_sequence(acts, initial, goals, cuts) && cut_total(cuts) == value
}

impl RelaxedTask {
    /// Charges the cost to the actions of the cut.
    fn charge(rc: &mut Vec<u32>, in_cut: &Vec<bool>, cost: u32)
        requires
            old(rc)@.len() == in_cut@.len(),
            forall|a: int| 0 <= a < in_cut@.len() && #[trigger] in_cut@[a] ==> old(rc)@[a] >= cost,
        ensures
            final(rc)@.len() == old(rc)@.len(),
            forall|a: int|
                0 <= a < in_cut@.len() ==> #[trigger] final(rc)@[a] == old(rc)@[a] - (if in_cut@[a] {
                    cost as int
                } else {
                    0
                }),
    {
        let ghost before = rc@;
        let mut a: usize = 0;
        while a < in_cut.len()
            invariant
                before == old(rc)@,
                a <= in_cut@.len(),
                rc@.len() == before.len() == in_cut@.len(),
                forall|b: int| 0 <= b < in_cut@.len() && #[trigger] in_cut@[b] ==> before[b] >= cost,
                forall|b: int|
                    0 <= b < a ==> #[trigger] rc@[b] == before[b] - (if in_cut@[b] {
                        cost as int
                    } else {
                        0
                    }),
                forall|b: int| a <= b < in_cut@.len() ==> #[trigger] rc@[b] == before[b],
            decreases in_cut@.len() - a,
        {
            if in_cut[a] {
                let c = rc[a];
                rc.set(a, c - cost);
            }
            a = a + 1;
        }
    }

    /// The least residual cost among the actions of the cut.
    fn least(rc: &Vec<u32>, in_cut: &Vec<bool>) -> (res: Option<u32>)
        requires
            rc@.len() == in_cut@.len(),
        ensures
            match res {
                Some(c) => {
                    &&& forall|a: int| 0 <= a < rc@.len() && #[trigger] in_cut@[a] ==> c <= rc@[a]
                    &&& exists|a: int| 0 <= a < rc@.len() && #[trigger] in_cut@[a] && rc@[a] == c
                },
                None => forall|a: int| 0 <= a < rc@.len() ==> !(#[trigger] in_cut@[a]),
            },
    {
        let mut best: Option<u32> = None;
        let mut i: usize = 0;
        while i < rc.len()
            invariant
                rc@.len() == in_cut@.len(),
                i <= rc@.len(),
                match best {
                    Some(c) => {
                        &&& forall|a: int| 0 <= a < i && #[trigger] in_cut@[a] ==> c <= rc@[a]
                        &&& exists|a: int| 0 <= a < i && #[trigger] in_cut@[a] && rc@[a] == c
                    },
                    None => forall|a: int| 0 <= a < i ==> !(#[trigger] in_cut@[a]),
                },
            decreases rc@.len() - i,
        {
            if in_cut[i] {
                match best {
                    Some(c) => {
                        if rc[i] < c {
                            best = Some(rc[i]);
                            assert(in_cut@[i as int] && rc@[i as int] == rc@[i as int]);
                        }
                    },
                    None => {
                        best = Some(rc[i]);
                        assert(in_cut@[i as int]);
                    },
                }
            }
            i = i + 1;
        }
        best
    }

    fn all_below(v: &Vec<usize>, n: usize) -> (res: bool)
        ensures
            res == below(v@, n as nat),
    {
        match first_outside(v, n) {
            Some(x) => {
                proof {
                    if below(v@, n as nat) {
                        lemma_members_below(v@, n as nat, x);
                    }
                }
                false
            },
            None => true,
        }
    }

    /// Evaluates LM-cut. `None` denotes a relaxed-unreachable goal, or one whose h_max
    /// value is beyond the range of the costs.
    pub fn evaluate(&self, initial: &Vec<usize>, goals: &Vec<usize>) -> (res: Option<u32>)
        requires
            self.wf(),
            self.facts() < usize::MAX,
        ensures
            goals@.len() == 0 ==> res == Some(0u32),
            goals@.len() > 0 && !(below(initial@, self.facts()) && below(goals@, self.facts())) ==> res is None,
            below(initial@, self.facts()) && below(goals@, self.facts()) ==> is_lm_cut_result(self.acts(), initial@, goals@, res),
    {
        let ghost acts = self.acts();
        if goals.len() == 0 {
            proof {
                assert(cut_sequence(acts, initial@, goals@, Seq::empty()));
                assert(cut_total(Seq::empty()) == 0);
                assert(is_lm_cut_value(acts, initial@, goals@, 0));
            }
            return Some(0);
        }
        let n = self.num_facts;
        if !Self::all_below(initial, n) || !Self::all_below(goals, n) {
            return None;
        }
        let m = self.actions.len();
        let mut rc: Vec<u32> = Vec::new();
        let mut j: usize = 0;
        while j < m
            invariant
                acts == self.acts(),
                m == acts.len(),
                m == self.actions@.len(),
                j <= m,
                rc@.len() == j,
                forall|a: int| 0 <= a < j ==> #[trigger] rc@[a] == acts[a].cost,
            decreases m - j,
        {
            assert(acts[j as int] == self.actions@[j as int]@);
            rc.push(self.actions[j].cost);
            j = j + 1;
        }
        let ghost mut cuts: Seq<Cut> = Seq::empty();
        let mut total: u32 = 0;
        loop
            invariant
                self.wf(),
                self.facts() < usize::MAX,
                acts == self.acts(),
                n == self.facts(),
                m == acts.len(),
                below(initial@, n as nat),
                below(goals@, n as nat),
                goals@.len() > 0,
                costs_are(acts, cuts, rc@),
                forall|a: int| 0 <= a < acts.len() ==> #[trigger] rc@[a] <= acts[a].cost,
                total == capped(cut_total(cuts)),
                forall|k: int| 0 <= k < cuts.len() ==> #[trigger] cut_in_turn(acts, initial@, goals@, cuts, k),
                cuts.len() > 0 ==> all_payable(acts, initial@, goals@),
            decreases sum_costs(rc@),
        {
            let h = self.hmax(initial, &rc);
            let mut goal: usize = goals[0];
            assert(goals@[0] < n);
            let mut goal_cost: u32 = h.fact_costs[goal];
            let mut i: usize = 0;
            let ghost mut at: int = 0;
            while i < goals.len()
                invariant
                    0 <= at < goals@.len(),
                    goals@[at] == goal,
                    i > 0 ==> at < i,
                    forall|k: int| 0 <= k < at ==> h.fact_costs@[#[trigger] goals@[k] as int] < goal_cost,
                    n == self.facts(),
                    self.wf(),
                    acts == self.acts(),
                    finished(&h, acts, n as nat, rc@, initial@),
                    below(initial@, n as nat),
                    below(goals@, n as nat),
                    goals@.len() > 0,
                    i <= goals@.len(),
                    goal < n,
                    goals@.contains(goal),
                    goal_cost == h.fact_costs@[goal as int],
                    rc@.len() == acts.len(),
                    forall|a: int| 0 <= a < acts.len() ==> #[trigger] rc@[a] <= acts[a].cost,
                    i > 0 ==> goal_cost != UNREACHED,
                    forall|k: int| 0 <= k < i ==> h.fact_costs@[#[trigger] goals@[k] as int] <= goal_cost,
                decreases goals@.len() - i,
            {
                assert(goals@[i as int] < n);
                let cost = h.fact_costs[goals[i]];
                if cost == UNREACHED {
                    proof {
                        let g = goals@[i as int];
                        if is_payable(acts, initial@, g) {
                            let k = choose|k: nat| #[trigger] costs_within(acts, own_costs(acts), initial@, g, UNREACHED - 1, k);
                            lemma_costs_lower(acts, own_costs(acts), rc@, initial@, g, UNREACHED - 1, k);
                            lemma_least_costs(&h, acts, n as nat, rc@, initial@, g, UNREACHED - 1, k);
                        }
                    }
                    return None;
                }
                if i == 0 || cost > goal_cost {
                    goal = goals[i];
                    goal_cost = cost;
                    proof {
                        at = i as int;
                    }
                    assert(goals@.contains(goals@[i as int]));
                }
                i = i + 1;
            }
            proof {
                if cuts.len() == 0 {
                    assert(rc@ =~= own_costs(acts)) by {
                        assert forall|a: int| 0 <= a < acts.len() implies rc@[a] == own_costs(acts)[a] by {
                            assert(rc@[a] == residual(acts, cuts, a));
                        }
                    }
                    assert forall|k: int| 0 <= k < goals@.len() implies is_payable(acts, initial@, #[trigger] goals@[k]) by {
                        let g = goals@[k];
                        assert(g < n);
                        assert(h.fact_costs@[g as int] != UNREACHED);
                        lemma_costs_more(acts, rc@, initial@, g, h.fact_costs@[g as int] as int, UNREACHED - 1);
                    }
                }
            }
            if goal_cost == 0 {
                proof {
                    assert forall|k: int| 0 <= k < goals@.len() implies reachable(
                        acts,
                        free_after(acts, cuts),
                        initial@,
                        #[trigger] goals@[k],
                    ) by {
                        assert(goals@[k] < n);
                        assert(h.fact_costs@[goals@[k] as int] == 0);
                        assert(reachable(acts, zero_cost(rc@), initial@, goals@[k]));
                        assert forall|a: int| 0 <= a < acts.len() implies #[trigger] zero_cost(rc@)(a) == free_after(acts, cuts)(a) by {
                            assert(rc@[a] == residual(acts, cuts, a));
                        }
                        lemma_reachable_same(acts, zero_cost(rc@), free_after(acts, cuts), initial@, goals@[k]);
                    }
                    assert(cut_sequence(acts, initial@, goals@, cuts));
                    assert(is_lm_cut_value(acts, initial@, goals@, cut_total(cuts)));
                }
                return Some(total);
            }
            let zone = self.goal_zone(&h, &rc, goal, Ghost(initial@));
            let in_cut = self.explore(&h, &rc, initial, &zone, Ghost(goal));
            proof {
                assert(is_dearest(goals@, h.fact_costs@, goal)) by {
                    assert(goals@[at] == goal);
                }
                lemma_round(&h, acts, n as nat, rc@, initial@, goals@, goal);
                assert(rc@ =~= residuals(acts, cuts)) by {
                    assert forall|a: int| 0 <= a < acts.len() implies rc@[a] == residuals(acts, cuts)[a] by {
                        assert(rc@[a] == residual(acts, cuts, a));
                    }
                }
            }
            let ghost actions = marked_set(in_cut@);
            assert(is_lm_cut(acts, residuals(acts, cuts), initial@, goals@, actions));
            let cost = match Self::least(&rc, &in_cut) {
                Some(cost) => cost,
                None => {
                    proof {
                        lemma_cut_exists(round_of(&h, acts, rc@, initial@, goal), acts, rc@, initial@, goals@);
                        let a = choose|a: int| actions.contains(a);
                        assert(in_cut@[a]);
                    }
                    return None;
                },
            };
            if cost == 0 {
                proof {
                    let a = choose|a: int| 0 <= a < rc@.len() && #[trigger] in_cut@[a] && rc@[a] == cost;
                    assert(actions.contains(a));
                    assert(rc@[a] > 0);
                }
                return None;
            }
            let ghost before = rc@;
            let ghost a0 = choose|a: int| 0 <= a < rc@.len() && #[trigger] in_cut@[a] && rc@[a] == cost;
            Self::charge(&mut rc, &in_cut, cost);
            proof {
                let cut = Cut { actions, cost: cost as nat };
                let now = cuts.push(cut);
                assert(now.drop_last() =~= cuts);
                assert forall|a: int| 0 <= a < acts.len() implies #[trigger] rc@[a] == residual(acts, now, a) by {
                    assert(before[a] == residual(acts, cuts, a));
                }
                assert(rc@[a0] + cost <= before[a0]);
                lemma_sum_drop(before, rc@, a0, cost as nat);
                assert forall|a: int| #[trigger] actions.contains(a) implies 0 <= a < acts.len() && residual(acts, cuts, a) >= cut.cost by {
                    assert(in_cut@[a]);
                    assert(before[a] == residual(acts, cuts, a));
                }
                assert(actions.contains(a0) && residual(acts, cuts, a0) == cut.cost) by {
                    assert(before[a0] == residual(acts, cuts, a0));
                }
                lemma_push_cut(acts, initial@, goals@, cuts, cut);
                cuts = now;
            }
            total = total.saturating_add(cost);
        }
    }
}

} // verus!
