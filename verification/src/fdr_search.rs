//! Best-first search over finite-domain partial plans.
use std::rc::Rc;

use vstd::prelude::*;

use crate::fdr::TaskView;
use crate::fdr_estimates::{open_cost, Planner, UNREACHABLE};
use crate::fdr_execution::{executes, linearization, linearize_and_validate};
use crate::fdr_plan::{PartialPlan, PlanView};
use crate::fdr_rank::{
    are_ranks, is_term_rank, lemma_infinite, lemma_plan_in, terms_supported, SearchStats, INFINITE_RANK,
};
use crate::fdr_run::{
    are_rankings, entered, first_state, goes_deeper, is_end, is_first, is_greedy_rank, is_move, is_ranking, is_run, is_spread, is_taken, leads,
    lemma_leads, lemma_stays, marked, offered, offered_all, one_more, queue_at, ranks_children, reranked, sought, source, spreads_by, tally_of,
    turned, visited, without, Phase, Ranking, State, Tally,
};
use crate::fdr_refine::{flaw_children, plan_views, selects, SelectedFlaw};
use crate::heuristics::{any_reads_graph, SelectionCriterion};
use crate::params::{Parameters, SearchAlgorithm};
use crate::queue::{entry_of, is_least, shared_entry, turns, Entry, PlanQueue, QueuedPlan};

verus! {

/// A solved partial plan plus one valid topological linearization.
#[derive(Debug)]
pub struct Solution {
    pub plan: PartialPlan,
    pub operators: Vec<usize>,
}

/// How a search ended.
#[derive(Debug)]
pub enum Outcome {
    Solved(Solution),
    LimitReached,
    NoSolution,
}

// ---------------------------------------------------------------------------
// What a search does
// ---------------------------------------------------------------------------

/// A generated plan and the flaw order under which it was generated.
pub struct Node {
    pub order: int,
    pub view: PlanView,
}

/// The criteria of a flaw order.
pub open spec fn tiers_of(params: &Parameters, order: int) -> Seq<SelectionCriterion> {
    params.flaw_orders@[order].tiers()
}

/// The parameters are those of a finite-domain search over the planner's task.
pub open spec fn is_valid(pl: &Planner, params: &Parameters) -> bool {
    &&& params.flaw_orders@.len() > 0
    &&& params.search_limits@.len() >= params.flaw_orders@.len()
    &&& terms_supported(pl, params.heuristic.ranking())
}

/// How many plans are generated under a flaw order at most; all of them
/// together can be counted.
pub open spec fn limit_of(params: &Parameters, order: int) -> nat {
    let share = (usize::MAX / params.flaw_orders@.len() as usize) as nat;
    if params.search_limits@[order] <= share {
        params.search_limits@[order] as nat
    } else {
        share
    }
}

/// `q` is a refinement of the flaw of `p` that the order selects.
pub open spec fn is_child(pl: &Planner, params: &Parameters, order: int, p: PlanView, q: PlanView) -> bool {
    exists|flaw: SelectedFlaw| #[trigger]
        selects(pl.t(), pl.model(), p, tiers_of(params, order), flaw) && flaw_children(pl.t(), pl.model(), p, flaw).contains(q)
}

/// The node at `i` is the empty plan or a child of an earlier one of its order.
pub open spec fn is_grown(pl: &Planner, params: &Parameters, history: Seq<Node>, i: int) -> bool {
    &&& 0 <= history[i].order < params.flaw_orders@.len()
    &&& history[i].view == PlanView::initial(pl.t()) || exists|j: int|
        0 <= j < i && (#[trigger] history[j]).order == history[i].order && is_child(
            pl,
            params,
            history[i].order,
            history[j].view,
            history[i].view,
        )
}

/// The nodes that a search generated, in order.
pub open spec fn is_history(pl: &Planner, params: &Parameters, history: Seq<Node>) -> bool {
    forall|i: int| 0 <= i < history.len() ==> #[trigger] is_grown(pl, params, history, i)
}

/// How many nodes were generated under the order.
pub open spec fn count_nodes(history: Seq<Node>, order: int) -> nat
    decreases history.len(),
{
    if history.len() == 0 {
        0
    } else {
        count_nodes(history.drop_last(), order) + (if history.last().order == order {
            1nat
        } else {
            0nat
        })
    }
}

pub open spec fn is_lazy_search(algorithm: SearchAlgorithm) -> bool {
    algorithm == SearchAlgorithm::LazyGbfs || algorithm == SearchAlgorithm::LazyGbfsDual
}

pub open spec fn has_two_queues(algorithm: SearchAlgorithm) -> bool {
    algorithm == SearchAlgorithm::LazyGbfsDual || algorithm == SearchAlgorithm::Alt
}

/// The heuristic tells that the plan leads nowhere.
pub open spec fn is_dead(pl: &Planner, params: &Parameters, p: PlanView) -> bool {
    &&& params.search_algorithm != SearchAlgorithm::Bfs
    &&& {
        ||| is_term_rank(pl, params.weight, p, 0, params.heuristic.ranking()[0], (INFINITE_RANK, INFINITE_RANK))
        ||| is_lazy_search(params.search_algorithm) && any_reads_graph(params.heuristic.ranking()) && open_cost(
            pl.t(),
            pl.model(),
            p,
            false,
        ) == UNREACHABLE
    }
}

/// The plan has no flaw.
pub open spec fn is_complete(t: TaskView, p: PlanView) -> bool {
    p.opens.len() == 0 && p.threats(t).len() == 0
}

/// The plan can be held, its links and open conditions counted.
pub open spec fn is_countable(p: PlanView) -> bool {
    p.links.len() <= usize::MAX && p.opens.len() <= usize::MAX
}

/// The plan has no flaw and its linearization does not execute, or each of its
/// children is in the set or leads nowhere.
pub open spec fn is_closed_off(pl: &Planner, params: &Parameters, order: int, seen: Set<PlanView>, p: PlanView) -> bool {
    is_countable(p) && if is_complete(pl.t(), p) {
        !executes(pl.t(), linearization(p))
    } else {
        exists|flaw: SelectedFlaw| #[trigger]
            selects(pl.t(), pl.model(), p, tiers_of(params, order), flaw) && forall|q: PlanView|
                flaw_children(pl.t(), pl.model(), p, flaw).contains(q) ==> #[trigger] seen.contains(q) || is_dead(pl, params, q)
    }
}

/// The plans that the order leads to from the empty plan, up to those that the
/// heuristic cuts off, hold no solution.
pub open spec fn is_exhausted(pl: &Planner, params: &Parameters, order: int) -> bool {
    exists|seen: Set<PlanView>| #[trigger]
        seen.contains(PlanView::initial(pl.t())) && forall|p: PlanView| #[trigger]
            seen.contains(p) ==> is_closed_off(pl, params, order, seen, p) || is_dead(pl, params, p)
}

/// What the plans of a search say of its outcome: that a plan was generated that
/// executes; or that the limit of an order was reached; or that an order was exhausted.
/// The latter is not known of iterative deepening under several orders, which drops
/// plans beyond its bound. How the search goes, [`crate::fdr_run`] says.
pub open spec fn is_search_result(pl: &Planner, params: &Parameters, history: Seq<Node>, outcome: Outcome, generated: nat) -> bool {
    &&& is_history(pl, params, history)
    &&& history.len() == generated
    &&& forall|o: int|
        0 <= o < params.flaw_orders@.len() ==> #[trigger] count_nodes(history, o) <= limit_of(params, o) || count_nodes(history, o) == 1
    &&& match outcome {
        Outcome::Solved(solution) => {
            &&& solution.plan.wf(pl.t())
            &&& is_complete(pl.t(), solution.plan@)
            &&& in_history(history, solution.plan@)
            &&& solution.operators@ == linearization(solution.plan@)
            &&& executes(pl.t(), solution.operators@)
        },
        Outcome::LimitReached => exists|o: int|
            0 <= o < params.flaw_orders@.len() && #[trigger] count_nodes(history, o) >= limit_of(params, o),
        Outcome::NoSolution => params.search_algorithm != SearchAlgorithm::Ida || params.flaw_orders@.len() == 1 ==> exists|o: int|
            0 <= o < params.flaw_orders@.len() && #[trigger] is_exhausted(pl, params, o),
    }
}

pub open spec fn in_history(history: Seq<Node>, p: PlanView) -> bool {
    exists|i: int| 0 <= i < history.len() && (#[trigger] history[i]).view == p
}

// ---------------------------------------------------------------------------
// Sums over orders
// ---------------------------------------------------------------------------

spec fn sum(v: Seq<usize>) -> nat
    decreases v.len(),
{
    if v.len() == 0 {
        0
    } else {
        sum(v.drop_last()) + v.last() as nat
    }
}

proof fn lemma_sum_update(v: Seq<usize>, i: int, x: usize)
    requires
        0 <= i < v.len(),
    ensures
        sum(v.update(i, x)) == sum(v) - v[i] + x,
    decreases v.len(),
{
    let after = v.update(i, x);
    if i == v.len() - 1 {
        assert(after.drop_last() =~= v.drop_last());
    } else {
        lemma_sum_update(v.drop_last(), i, x);
        assert(after.drop_last() =~= v.drop_last().update(i, x));
    }
}

/// Numbers up to a cap sum up to less than the cap times their count if one of
/// them is below the cap.
proof fn lemma_sum_below(v: Seq<usize>, cap: nat, i: int)
    requires
        0 <= i < v.len(),
        v[i] < cap,
        forall|k: int| 0 <= k < v.len() ==> #[trigger] v[k] <= cap,
    ensures
        sum(v) < v.len() * cap,
    decreases v.len(),
{
    let n = v.len();
    assert((n - 1) * cap + cap == n * cap) by (nonlinear_arith)
        requires
            n >= 1,
    ;
    if i == n - 1 {
        lemma_sum_at_most(v.drop_last(), cap);
    } else {
        assert(v[n - 1] <= cap);
        lemma_sum_below(v.drop_last(), cap, i);
    }
}

proof fn lemma_sum_at_most(v: Seq<usize>, cap: nat)
    requires
        forall|k: int| 0 <= k < v.len() ==> #[trigger] v[k] <= cap,
    ensures
        sum(v) <= v.len() * cap,
    decreases v.len(),
{
    if v.len() > 0 {
        let n = v.len();
        assert(v[n - 1] <= cap);
        lemma_sum_at_most(v.drop_last(), cap);
        assert((n - 1) * cap + cap == n * cap) by (nonlinear_arith)
            requires
                n >= 1,
        ;
    }
}

/// How many plans may still be generated.
spec fn budget(limits: Seq<usize>, generated: Seq<usize>) -> nat
    decreases limits.len(),
{
    if limits.len() == 0 {
        0
    } else {
        budget(limits.drop_last(), generated.drop_last()) + (if generated.last() < limits.last() {
            (limits.last() - generated.last()) as nat
        } else {
            0
        })
    }
}

proof fn lemma_budget(limits: Seq<usize>, generated: Seq<usize>, i: int)
    requires
        limits.len() == generated.len(),
        0 <= i < limits.len(),
        generated[i] < limits[i],
    ensures
        budget(limits, generated.update(i, (generated[i] + 1) as usize)) + 1 == budget(limits, generated),
    decreases limits.len(),
{
    let after = generated.update(i, (generated[i] + 1) as usize);
    if i == limits.len() - 1 {
        assert(after.drop_last() =~= generated.drop_last());
    } else {
        lemma_budget(limits.drop_last(), generated.drop_last(), i);
        assert(after.drop_last() =~= generated.drop_last().update(i, (generated[i] + 1) as usize));
    }
}

/// How many orders are below their limits.
spec fn below(limits: Seq<usize>, generated: Seq<usize>) -> nat
    decreases limits.len(),
{
    if limits.len() == 0 {
        0
    } else {
        below(limits.drop_last(), generated.drop_last()) + (if generated.last() < limits.last() {
            1nat
        } else {
            0nat
        })
    }
}

proof fn lemma_below(limits: Seq<usize>, generated: Seq<usize>, i: int, x: usize)
    requires
        limits.len() == generated.len(),
        0 <= i < limits.len(),
    ensures
        below(limits, generated.update(i, x)) == below(limits, generated) - (if generated[i] < limits[i] {
            1nat
        } else {
            0nat
        }) + (if x < limits[i] {
            1nat
        } else {
            0nat
        }),
    decreases limits.len(),
{
    let after = generated.update(i, x);
    if i == limits.len() - 1 {
        assert(after.drop_last() =~= generated.drop_last());
    } else {
        lemma_below(limits.drop_last(), generated.drop_last(), i, x);
        assert(after.drop_last() =~= generated.drop_last().update(i, x));
    }
}

proof fn lemma_some_below(limits: Seq<usize>, generated: Seq<usize>) -> (i: int)
    requires
        limits.len() == generated.len(),
        below(limits, generated) > 0,
    ensures
        0 <= i < limits.len(),
        generated[i] < limits[i],
    decreases limits.len(),
{
    let n = limits.len();
    if generated.last() < limits.last() {
        n - 1
    } else {
        lemma_some_below(limits.drop_last(), generated.drop_last())
    }
}

/// How often the waiting plans may come up.
spec fn total_load(queues: Seq<PlanQueue>) -> nat
    decreases queues.len(),
{
    if queues.len() == 0 {
        0
    } else {
        total_load(queues.drop_last()) + queues.last().load()
    }
}

proof fn lemma_total_load(queues: Seq<PlanQueue>, i: int, q: PlanQueue)
    requires
        0 <= i < queues.len(),
    ensures
        total_load(queues.update(i, q)) == total_load(queues) - queues[i].load() + q.load(),
    decreases queues.len(),
{
    let after = queues.update(i, q);
    if i == queues.len() - 1 {
        assert(after.drop_last() =~= queues.drop_last());
    } else {
        lemma_total_load(queues.drop_last(), i, q);
        assert(after.drop_last() =~= queues.drop_last().update(i, q));
    }
}

proof fn lemma_count_push(history: Seq<Node>, node: Node, order: int)
    ensures
        count_nodes(history.push(node), order) == count_nodes(history, order) + (if node.order == order {
            1nat
        } else {
            0nat
        }),
{
    assert(history.push(node).drop_last() =~= history);
}

/// A longer history has the same beginnings.
proof fn lemma_history_push(pl: &Planner, params: &Parameters, history: Seq<Node>, node: Node)
    requires
        is_history(pl, params, history),
        0 <= node.order < params.flaw_orders@.len(),
        node.view == PlanView::initial(pl.t()) || exists|j: int|
            0 <= j < history.len() && (#[trigger] history[j]).order == node.order && is_child(
                pl,
                params,
                node.order,
                history[j].view,
                node.view,
            ),
    ensures
        is_history(pl, params, history.push(node)),
{
    let after = history.push(node);
    assert forall|i: int| 0 <= i < after.len() implies #[trigger] is_grown(pl, params, after, i) by {
        if i < history.len() {
            assert(is_grown(pl, params, history, i));
            assert(after[i] == history[i]);
            if history[i].view != PlanView::initial(pl.t()) {
                let j = choose|j: int|
                    0 <= j < i && (#[trigger] history[j]).order == history[i].order && is_child(
                        pl,
                        params,
                        history[i].order,
                        history[j].view,
                        history[i].view,
                    );
                assert(after[j] == history[j]);
            }
        } else if node.view != PlanView::initial(pl.t()) {
            let j = choose|j: int|
                0 <= j < history.len() && (#[trigger] history[j]).order == node.order && is_child(
                    pl,
                    params,
                    node.order,
                    history[j].view,
                    node.view,
                );
            assert(after[j] == history[j]);
        }
    }
}

// ---------------------------------------------------------------------------
// The state of a search
// ---------------------------------------------------------------------------

/// The state of a search: the queues of every flaw order and what was counted.
struct Search {
    primary: Vec<PlanQueue>,
    /// The second queues, where the algorithm has them.
    secondary: Vec<PlanQueue>,
    limits: Vec<usize>,
    generated: Vec<usize>,
    /// By plan number, whether the plan was expanded; kept with two queues.
    expanded: Vec<bool>,
    stats: SearchStats,
    order: usize,
    orders_left: usize,
    next_switch: usize,
    limit_reached: bool,
    best_h: i128,
    boost: usize,
    pops: usize,
    rank0: i128,
    f_limit: i128,
    next_f_limit: i128,
    history: Ghost<Seq<Node>>,
    /// The plans that the current round knows under each order.
    seen: Ghost<Seq<Set<PlanView>>>,
    /// The plans that the current round has dealt with under each order.
    done: Ghost<Seq<Set<PlanView>>>,
}

/// Whether the search accounts for every plan.
spec fn is_traced(params: &Parameters) -> bool {
    params.search_algorithm != SearchAlgorithm::Ida || params.flaw_orders@.len() == 1
}

/// The plan waits in the queue.
spec fn waits(queue: PlanQueue, p: PlanView) -> bool {
    exists|item: Rc<QueuedPlan>| #[trigger] queue.contents().contains(item) && item.plan@ == p
}

/// The entries of some queues.
spec fn all_entries(queues: Seq<PlanQueue>) -> Seq<vstd::multiset::Multiset<Entry>> {
    Seq::new(queues.len(), |o: int| queues[o].entries())
}

/// The numbers that are marked.
spec fn marks_of(expanded: Seq<bool>) -> Set<usize> {
    Set::new(|k: usize| k < expanded.len() && expanded[k as int])
}

proof fn lemma_marks(expanded: Seq<bool>, id: usize)
    ensures
        marks_of(with_mark(expanded, id)) == marks_of(expanded).insert(id),
{
    assert(marks_of(with_mark(expanded, id)) =~= marks_of(expanded).insert(id));
}

impl Search {
    spec fn n(&self) -> nat {
        self.limits@.len()
    }

    /// The state of the search between two phases.
    spec fn rest(&self) -> State {
        self.state(Phase::Empty)
    }

    /// The state of the search in a phase.
    spec fn state(&self, phase: Phase) -> State {
        State {
            primary: all_entries(self.primary@),
            secondary: all_entries(self.secondary@),
            generated: self.generated@,
            expanded: marks_of(self.expanded@),
            tally: tally_of(self.stats),
            order: self.order,
            next_switch: self.next_switch,
            limit_reached: self.limit_reached,
            best_h: self.best_h,
            boost: self.boost,
            pops: self.pops,
            rank0: self.rank0,
            f_limit: self.f_limit,
            next_f_limit: self.next_f_limit,
            phase,
        }
    }

    /// A queued plan is the one that its number stands for.
    spec fn item_ok(&self, pl: &Planner, order: int, item: QueuedPlan) -> bool {
        &&& item.plan.wf(pl.t())
        &&& 1 <= item.plan.id < self.history@.len()
        &&& self.history@[item.plan.id as int] == (Node { order, view: item.plan@ })
        &&& item.rank@.len() > 0
        &&& item.rank@[0] != INFINITE_RANK
    }

    spec fn queue_ok(&self, pl: &Planner, order: int, queue: PlanQueue) -> bool {
        &&& queue.wf()
        &&& forall|item: Rc<QueuedPlan>| #[trigger] queue.contents().contains(item) ==> self.item_ok(pl, order, *item)
    }

    spec fn base(&self, pl: &Planner, params: &Parameters) -> bool {
        let n = params.flaw_orders@.len();
        &&& pl.wf()
        &&& is_valid(pl, params)
        &&& params.heuristic.ranking().len() > 0
        &&& n == self.n() <= usize::MAX
        &&& self.primary@.len() == n
        &&& self.secondary@.len() == (if has_two_queues(params.search_algorithm) {
            n
        } else {
            0
        })
        &&& self.generated@.len() == n
        &&& self.seen@.len() == n
        &&& self.done@.len() == n
        &&& self.order < n
        &&& forall|o: int| 0 <= o < n ==> #[trigger] self.limits@[o] == limit_of(params, o)
        &&& forall|o: int|
            0 <= o < n ==> #[trigger] self.generated@[o] == count_nodes(self.history@, o) && (self.generated@[o] <= self.limits@[o]
                || self.generated@[o] == 1)
        &&& forall|o: int| 0 <= o < n ==> self.queue_ok(pl, o, #[trigger] self.primary@[o])
        &&& forall|o: int| 0 <= o < self.secondary@.len() ==> self.queue_ok(pl, o, #[trigger] self.secondary@[o])
        &&& is_history(pl, params, self.history@)
        &&& self.history@.len() == self.stats.nodes_generated
        &&& self.stats.nodes_generated == sum(self.generated@)
        &&& self.rank0 != INFINITE_RANK
        &&& self.limit_reached ==> exists|o: int| 0 <= o < n && #[trigger] self.generated@[o] >= self.limits@[o]
        &&& self.next_f_limit > self.f_limit || self.next_f_limit == INFINITE_RANK
        &&& params.search_algorithm != SearchAlgorithm::Ida ==> self.f_limit == INFINITE_RANK
        &&& has_two_queues(params.search_algorithm) || self.expanded@.len() == 0
        &&& forall|id: int|
            0 < id < self.expanded@.len() && #[trigger] self.expanded@[id] ==> id < self.history@.len() && self.done@[self.history@[id].order].contains(
                self.history@[id].view,
            )
    }

    /// Children beyond the bound of this round were dropped.
    spec fn is_cut(&self, params: &Parameters) -> bool {
        params.search_algorithm == SearchAlgorithm::Ida && self.next_f_limit < INFINITE_RANK
    }

    /// Every known plan of the order is dealt with, waits, leads nowhere or is
    /// the excepted one.
    spec fn tree_ok(&self, pl: &Planner, params: &Parameters, o: int, except: Option<PlanView>) -> bool {
        &&& self.seen@[o].contains(PlanView::initial(pl.t()))
        &&& forall|p: PlanView| #[trigger]
            self.seen@[o].contains(p) ==> self.done@[o].contains(p) || waits(self.primary@[o], p) || is_dead(pl, params, p) || (o
                == self.order && except == Some(p))
        &&& forall|p: PlanView| #[trigger]
            self.done@[o].contains(p) ==> is_closed_off(pl, params, o, self.seen@[o], p) || self.is_cut(params)
    }

    spec fn trace(&self, pl: &Planner, params: &Parameters, except: Option<PlanView>) -> bool {
        forall|o: int| 0 <= o < self.n() && #[trigger] self.generated@[o] >= 1 ==> self.tree_ok(pl, params, o, except)
    }

    /// The search accounts for every plan, unless it reached a limit.
    spec fn accounts(&self, pl: &Planner, params: &Parameters, except: Option<PlanView>) -> bool {
        self.limit_reached || !is_traced(params) || self.trace(pl, params, except)
    }

    /// As many orders are left as are below their limits, and the current one.
    spec fn orders_ok(&self) -> bool {
        self.orders_left == below(self.limits@, self.generated@) + (if self.generated@[self.order as int] < self.limits@[self.order as int] {
            0nat
        } else {
            1nat
        })
    }

    /// The current plan was generated under the current order.
    spec fn current_ok(&self, pl: &Planner, plan: PartialPlan) -> bool {
        &&& plan.wf(pl.t())
        &&& exists|j: int| 0 <= j < self.history@.len() && #[trigger] self.history@[j] == (Node { order: self.order as int, view: plan@ })
        &&& plan.id == 0 || (plan.id < self.history@.len() && self.history@[plan.id as int] == (Node {
            order: self.order as int,
            view: plan@,
        }))
        &&& self.generated@[self.order as int] >= 1
    }

    spec fn load(&self) -> nat {
        total_load(self.primary@) + total_load(self.secondary@)
    }

    spec fn left(&self) -> nat {
        budget(self.limits@, self.generated@)
    }

    /// What stays the same while children are offered and plans are taken.
    spec fn same_course(&self, other: &Search) -> bool {
        &&& self.limits@ == other.limits@
        &&& self.order == other.order
        &&& self.orders_left == other.orders_left
        &&& self.next_switch == other.next_switch
        &&& self.limit_reached == other.limit_reached
        &&& self.f_limit == other.f_limit
    }
}

fn is_lazy_algorithm(algorithm: SearchAlgorithm) -> (res: bool)
    ensures
        res == is_lazy_search(algorithm),
{
    algorithm == SearchAlgorithm::LazyGbfs || algorithm == SearchAlgorithm::LazyGbfsDual
}

fn uses_two_queues(algorithm: SearchAlgorithm) -> (res: bool)
    ensures
        res == has_two_queues(algorithm),
{
    algorithm == SearchAlgorithm::LazyGbfsDual || algorithm == SearchAlgorithm::Alt
}

/// The ranks of a plan in the queues: the primary one, and the one of the second
/// queue of queue alternation.
struct Ranks {
    rank: Vec<i128>,
    second: Vec<i128>,
    is_lazy: bool,
}

spec fn ranking_of(r: Option<Ranks>) -> Option<Ranking> {
    match r {
        Some(v) => Some(Ranking { rank: v.rank@, second: v.second@, is_lazy: v.is_lazy }),
        None => None,
    }
}

proof fn lemma_queue_ok_grows(old_search: &Search, new_search: &Search, pl: &Planner, order: int, queue: PlanQueue)
    requires
        old_search.queue_ok(pl, order, queue),
        old_search.history@.len() <= new_search.history@.len(),
        forall|i: int| 0 <= i < old_search.history@.len() ==> #[trigger] new_search.history@[i] == old_search.history@[i],
    ensures
        new_search.queue_ok(pl, order, queue),
{
    assert forall|item: Rc<QueuedPlan>| #[trigger] queue.contents().contains(item) implies new_search.item_ok(pl, order, *item) by {
        assert(old_search.item_ok(pl, order, *item));
    }
}

impl Search {
    /// The ranks of a child; `None` when it is pruned.
    fn rank_child(&mut self, pl: &Planner, params: &Parameters, child: &PartialPlan) -> (res: Option<Ranks>)
        requires
            old(self).base(pl, params),
            child.wf(pl.t()),
        ensures
            final(self).stats.nodes_generated == old(self).stats.nodes_generated,
            final(self).primary == old(self).primary,
            final(self).secondary == old(self).secondary,
            final(self).limits == old(self).limits,
            final(self).generated == old(self).generated,
            final(self).expanded == old(self).expanded,
            final(self).order == old(self).order,
            final(self).orders_left == old(self).orders_left,
            final(self).next_switch == old(self).next_switch,
            final(self).limit_reached == old(self).limit_reached,
            final(self).best_h == old(self).best_h,
            final(self).boost == old(self).boost,
            final(self).pops == old(self).pops,
            final(self).rank0 == old(self).rank0,
            final(self).f_limit == old(self).f_limit,
            final(self).next_f_limit == old(self).next_f_limit,
            final(self).history == old(self).history,
            final(self).seen == old(self).seen,
            final(self).done == old(self).done,
            final(self).base(pl, params),
            is_ranking(pl, params, old(self).rank0, child@, child.id, ranking_of(res)),
            tally_of(final(self).stats) == (Tally {
                h_evals: if ranks_children(params.search_algorithm) {
                    one_more(old(self).stats.h_evals)
                } else {
                    old(self).stats.h_evals
                },
                pruned: if res is None {
                    one_more(old(self).stats.pruned)
                } else {
                    old(self).stats.pruned
                },
                ..tally_of(old(self).stats)
            }),
            match res {
                None => is_dead(pl, params, child@),
                Some(r) => {
                    &&& r.rank@.len() > 0
                    &&& r.rank@[0] == INFINITE_RANK ==> is_dead(pl, params, child@)
                    &&& params.search_algorithm == SearchAlgorithm::Alt && r.rank@[0] != INFINITE_RANK ==> r.second@.len() > 0
                        && r.second@[0] != INFINITE_RANK
                },
            },
    {
        let ghost before = *self;
        let terms = params.heuristic.terms();
        let algorithm = params.search_algorithm;
        proof {
            reveal(is_ranking);
            lemma_plan_in(pl.t(), child@);
            crate::fdr_plan::lemma_threats(child@, pl.t(), child.threats@);
            assert(child.threats.len() == child.threats@.len());
            assert(child.open_conditions.len() == child.open_conditions@.len());
        }
        if algorithm == SearchAlgorithm::Bfs {
            let mut rank: Vec<i128> = Vec::new();
            rank.push(child.num_steps() as i128);
            rank.push(child.id as i128);
            assert(rank@ =~= seq![child@.steps.len() as i128, child.id as i128]);
            let second: Vec<i128> = Vec::new();
            assert(second@ =~= seq![]);
            return Some(Ranks { rank, second, is_lazy: false });
        }
        if is_lazy_algorithm(algorithm) {
            if params.heuristic.needs_planning_graph() && pl.open_estimate(child, false).cost == UNREACHABLE {
                self.stats.pruned = self.stats.pruned.saturating_add(1);
                proof {
                    lemma_same_base(&before, self, pl, params);
                }
                return None;
            }
            let mut rank: Vec<i128> = Vec::new();
            rank.push(self.rank0);
            rank.push(child.num_open_conditions() as i128);
            rank.push(-(child.id as i128));
            assert(rank@ =~= seq![self.rank0, child@.opens.len() as i128, (0 - child.id) as i128]);
            let second: Vec<i128> = Vec::new();
            assert(second@ =~= seq![]);
            return Some(Ranks { rank, second, is_lazy: true });
        }
        let (total, greedy) = pl.rank_both(child, params.weight, terms, &mut self.stats);
        proof {
            lemma_same_base(&before, self, pl, params);
            let r = (total@[0], greedy@[0]);
            assert(is_term_rank(pl, params.weight, child@, child.id, terms@[0], r));
            if r.0 == INFINITE_RANK || r.1 == INFINITE_RANK {
                lemma_infinite(pl, params.weight, child@, child.id, terms@[0], r);
            }
        }
        if algorithm == SearchAlgorithm::Gbfs {
            Some(Ranks { rank: greedy, second: Vec::new(), is_lazy: false })
        } else if algorithm == SearchAlgorithm::Alt {
            proof {
                let r = (total@[0], greedy@[0]);
                if r.1 == INFINITE_RANK {
                    lemma_both_infinite(pl, params.weight, child@, child.id, terms@[0], r);
                }
            }
            Some(Ranks { rank: total, second: greedy, is_lazy: false })
        } else {
            Some(Ranks { rank: total, second: Vec::new(), is_lazy: false })
        }
    }
}

/// One rank of a term is infinite only together with the other.
proof fn lemma_both_infinite(
    pl: &Planner,
    weight: i128,
    p: PlanView,
    id: usize,
    term: crate::heuristics::HVal,
    r: (i128, i128),
)
    requires
        is_term_rank(pl, weight, p, id, term, r),
        r.0 == INFINITE_RANK || r.1 == INFINITE_RANK,
        p.opens.len() <= usize::MAX,
        p.threats(pl.t()).len() <= usize::MAX,
    ensures
        r == (INFINITE_RANK, INFINITE_RANK),
{
}

/// Only what the statistics count besides the generated plans differs.
proof fn lemma_same_base(a: &Search, b: &Search, pl: &Planner, params: &Parameters)
    requires
        a.base(pl, params),
        b.primary == a.primary,
        b.secondary == a.secondary,
        b.limits == a.limits,
        b.generated == a.generated,
        b.expanded == a.expanded,
        b.stats.nodes_generated == a.stats.nodes_generated,
        b.order == a.order,
        b.limit_reached == a.limit_reached,
        b.rank0 == a.rank0,
        b.next_f_limit > b.f_limit || b.next_f_limit == INFINITE_RANK,
        params.search_algorithm != SearchAlgorithm::Ida ==> b.f_limit == INFINITE_RANK,
        b.history == a.history,
        b.seen == a.seen,
        b.done@.len() == a.done@.len(),
        forall|o: int| 0 <= o < a.done@.len() ==> a.done@[o].subset_of(#[trigger] b.done@[o]),
    ensures
        b.base(pl, params),
{
    assert forall|id: int| 0 < id < b.expanded@.len() && #[trigger] b.expanded@[id] implies id < b.history@.len()
        && b.done@[b.history@[id].order].contains(b.history@[id].view) by {
        assert(a.expanded@[id]);
        assert(is_grown(pl, params, a.history@, id));
        let o = a.history@[id].order;
        assert(a.done@[o].subset_of(b.done@[o]));
    }
    if b.limit_reached {
        let o = choose|o: int| 0 <= o < a.n() && #[trigger] a.generated@[o] >= a.limits@[o];
        assert(b.generated@[o] >= b.limits@[o]);
    }
    assert forall|o: int| 0 <= o < b.n() implies b.queue_ok(pl, o, #[trigger] b.primary@[o]) by {
        lemma_queue_ok_grows(a, b, pl, o, a.primary@[o]);
    }
    assert forall|o: int| 0 <= o < b.secondary@.len() implies b.queue_ok(pl, o, #[trigger] b.secondary@[o]) by {
        lemma_queue_ok_grows(a, b, pl, o, a.secondary@[o]);
    }
}

/// What offering children of the current plan keeps and adds.
spec fn is_further(pl: &Planner, params: &Parameters, a: &Search, b: &Search) -> bool {
    &&& b.base(pl, params)
    &&& b.same_course(a)
    &&& b.done@ == a.done@
    &&& b.expanded@ == a.expanded@
    &&& b.rank0 == a.rank0
    &&& a.history@.len() <= b.history@.len()
    &&& forall|i: int| 0 <= i < a.history@.len() ==> #[trigger] b.history@[i] == a.history@[i]
    &&& forall|o: int|
        0 <= o < a.n() && o != a.order ==> #[trigger] b.seen@[o] == a.seen@[o] && b.primary@[o] == a.primary@[o] && b.generated@[o]
            == a.generated@[o]
    &&& a.generated@[a.order as int] <= b.generated@[a.order as int]
    &&& a.seen@[a.order as int].subset_of(b.seen@[a.order as int])
    &&& forall|p: PlanView| waits(a.primary@[a.order as int], p) ==> #[trigger] waits(b.primary@[a.order as int], p)
    &&& forall|p: PlanView| #[trigger]
        b.seen@[a.order as int].contains(p) ==> a.seen@[a.order as int].contains(p) || waits(b.primary@[a.order as int], p)
    &&& b.next_f_limit <= a.next_f_limit
    &&& b.left() < a.left() || (b.left() == a.left() && b.load() == a.load())
    &&& a.orders_ok() ==> b.orders_ok()
}

proof fn lemma_further_transitive(pl: &Planner, params: &Parameters, a: &Search, b: &Search, c: &Search)
    requires
        is_further(pl, params, a, b),
        is_further(pl, params, b, c),
    ensures
        is_further(pl, params, a, c),
{
    assert forall|i: int| 0 <= i < a.history@.len() implies #[trigger] c.history@[i] == a.history@[i] by {
        assert(b.history@[i] == a.history@[i]);
    }
    assert forall|o: int| 0 <= o < a.n() && o != a.order implies #[trigger] c.seen@[o] == a.seen@[o] && c.primary@[o] == a.primary@[o]
        && c.generated@[o] == a.generated@[o] by {
        assert(b.seen@[o] == a.seen@[o]);
    }
    assert forall|p: PlanView| waits(a.primary@[a.order as int], p) implies #[trigger] waits(c.primary@[a.order as int], p) by {
        assert(waits(b.primary@[a.order as int], p));
    }
    assert forall|p: PlanView| #[trigger] c.seen@[a.order as int].contains(p) implies a.seen@[a.order as int].contains(p) || waits(
        c.primary@[a.order as int],
        p,
    ) by {
        if b.seen@[a.order as int].contains(p) && !a.seen@[a.order as int].contains(p) {
            assert(waits(b.primary@[a.order as int], p));
            assert(waits(c.primary@[a.order as int], p));
        }
    }
}

/// The child is known, leads nowhere, or was dropped at a limit or bound.
spec fn is_placed(pl: &Planner, params: &Parameters, s: &Search, child: PlanView) -> bool {
    ||| s.seen@[s.order as int].contains(child)
    ||| is_dead(pl, params, child)
    ||| s.generated@[s.order as int] >= s.limits@[s.order as int]
    ||| s.is_cut(params)
}

proof fn lemma_still_placed(pl: &Planner, params: &Parameters, a: &Search, b: &Search, child: PlanView)
    requires
        is_further(pl, params, a, b),
        is_placed(pl, params, a, child),
    ensures
        is_placed(pl, params, b, child),
{
}

proof fn lemma_push_waits(a: PlanQueue, b: PlanQueue, item: Rc<QueuedPlan>)
    requires
        b.contents() == a.contents().insert(item),
    ensures
        forall|p: PlanView| waits(a, p) ==> #[trigger] waits(b, p),
        waits(b, item.plan@),
{
    broadcast use vstd::multiset::group_multiset_axioms;

    assert(b.contents().contains(item));
    assert forall|p: PlanView| waits(a, p) implies #[trigger] waits(b, p) by {
        let x = choose|x: Rc<QueuedPlan>| #[trigger] a.contents().contains(x) && x.plan@ == p;
        assert(b.contents().contains(x));
    }
}

impl Search {
    /// Ranks a child of the current plan and queues it, within the limits.
    #[verifier::rlimit(40)]
    fn offer(&mut self, pl: &Planner, params: &Parameters, child: PartialPlan, Ghost(parent): Ghost<PlanView>)
        requires
            old(self).base(pl, params),
            child.wf(pl.t()),
            child.id == old(self).stats.nodes_generated,
            old(self).history@.len() > 0,
            exists|j: int|
                0 <= j < old(self).history@.len() && #[trigger] old(self).history@[j] == (Node {
                    order: old(self).order as int,
                    view: parent,
                }),
            is_child(pl, params, old(self).order as int, parent, child@),
        ensures
            is_further(pl, params, old(self), final(self)),
            is_placed(pl, params, final(self), child@),
            exists|r: Option<Ranking>| #[trigger]
                is_ranking(pl, params, old(self).rank0, child@, child.id, r) && final(self).rest() == offered(params, old(self).rest(), child@, r),
    {
        broadcast use vstd::multiset::group_multiset_axioms;

        let ghost start = *self;
        let ghost view = child@;
        proof {
            reveal(offered);
        }
        let algorithm = params.search_algorithm;
        let found = self.rank_child(pl, params, &child);
        let ghost r = ranking_of(found);
        let ranks = match found {
            Some(r) => r,
            None => {
                assert(is_offered(params, &start, self, view, r));
                return;
            },
        };
        let first = ranks.rank[0];
        let order = self.order;
        if first == INFINITE_RANK || self.generated[order] >= self.limits[order] {
            assert(is_offered(params, &start, self, view, r));
            return;
        }
        if algorithm == SearchAlgorithm::Ida && first > self.f_limit {
            if first < self.next_f_limit {
                let ghost before = *self;
                self.next_f_limit = first;
                proof {
                    assert forall|o: int| 0 <= o < self.n() implies self.queue_ok(pl, o, #[trigger] self.primary@[o]) by {
                        lemma_queue_ok_grows(&before, self, pl, o, before.primary@[o]);
                    }
                    assert forall|o: int| 0 <= o < self.secondary@.len() implies self.queue_ok(pl, o, #[trigger] self.secondary@[o]) by {
                        lemma_queue_ok_grows(&before, self, pl, o, before.secondary@[o]);
                    }
                }
            }
            assert(is_offered(params, &start, self, view, r));
            return;
        }
        let ghost mid = *self;
        let ghost node = Node { order: order as int, view };
        let ghost history = self.history@;
        let id = child.id;
        let child = Rc::new(child);
        let Ranks { rank, second, is_lazy } = ranks;
        proof {
            assert forall|k: int| 0 <= k < self.generated@.len() implies #[trigger] self.generated@[k] <= usize::MAX
                / params.flaw_orders@.len() as usize by {
                assert(self.limits@[k] == limit_of(params, k));
                lemma_share(params.flaw_orders@.len() as usize);
            }
            assert(self.limits@[order as int] == limit_of(params, order as int));
            lemma_sum_below(self.generated@, (usize::MAX / params.flaw_orders@.len() as usize) as nat, order as int);
            lemma_share(params.flaw_orders@.len() as usize);
        }
        if algorithm == SearchAlgorithm::LazyGbfsDual {
            let mut fifo: Vec<i128> = Vec::new();
            fifo.push(id as i128);
            assert(fifo@ =~= seq![id as i128]);
            self.secondary[order].push(QueuedPlan { plan: Rc::clone(&child), rank: fifo, is_lazy });
        } else if algorithm == SearchAlgorithm::Alt {
            self.secondary[order].push(QueuedPlan { plan: Rc::clone(&child), rank: second, is_lazy: false });
        }
        let ghost queued = QueuedPlan { plan: child, rank, is_lazy };
        self.primary[order].push(QueuedPlan { plan: child, rank, is_lazy });
        let count = self.generated[order];
        self.generated.set(order, count + 1);
        self.stats.nodes_generated = self.stats.nodes_generated + 1;
        proof {
            self.history@ = history.push(node);
            self.seen@ = mid.seen@.update(order as int, mid.seen@[order as int].insert(view));
            let j = choose|j: int|
                0 <= j < history.len() && #[trigger] history[j] == (Node { order: order as int, view: parent });
            assert(history[j].order == order);
            lemma_history_push(pl, params, history, node);
            lemma_sum_update(mid.generated@, order as int, (count + 1) as usize);
            lemma_budget(mid.limits@, mid.generated@, order as int);
            lemma_below(mid.limits@, mid.generated@, order as int, (count + 1) as usize);
            lemma_push_waits(mid.primary@[order as int], self.primary@[order as int], Rc::new(queued));
            assert forall|o: int| 0 <= o < self.n() implies #[trigger] self.generated@[o] == count_nodes(self.history@, o) && (
            self.generated@[o] <= self.limits@[o] || self.generated@[o] == 1) by {
                lemma_count_push(history, node, o);
                assert(mid.generated@[o] == count_nodes(history, o));
            }
            assert(self.history@[id as int] == node);
            assert forall|o: int| 0 <= o < self.n() implies self.queue_ok(pl, o, #[trigger] self.primary@[o]) by {
                lemma_queue_ok_grows(&mid, self, pl, o, mid.primary@[o]);
                if o == order {
                    assert forall|item: Rc<QueuedPlan>| #[trigger] self.primary@[o].contents().contains(item) implies self.item_ok(
                        pl,
                        o,
                        *item,
                    ) by {
                        if item != Rc::new(queued) {
                            assert(mid.primary@[o].contents().contains(item));
                        }
                    }
                } else {
                    assert(self.primary@[o] == mid.primary@[o]);
                }
            }
            assert forall|o: int| 0 <= o < self.secondary@.len() implies self.queue_ok(pl, o, #[trigger] self.secondary@[o]) by {
                lemma_queue_ok_grows(&mid, self, pl, o, mid.secondary@[o]);
                if o == order {
                    assert forall|item: Rc<QueuedPlan>| #[trigger] self.secondary@[o].contents().contains(item) implies self.item_ok(
                        pl,
                        o,
                        *item,
                    ) by {
                        if mid.secondary@[o].contents().contains(item) {
                            assert(mid.queue_ok(pl, o, mid.secondary@[o]));
                            assert(mid.item_ok(pl, o, *item));
                        }
                    }
                } else {
                    assert(self.secondary@[o] == mid.secondary@[o]);
                }
            }
            assert forall|k: int| 0 < k < self.expanded@.len() && #[trigger] self.expanded@[k] implies k < self.history@.len()
                && self.done@[self.history@[k].order].contains(self.history@[k].view) by {
                assert(self.history@[k] == history[k]);
            }
            if self.limit_reached {
                let o = choose|o: int| 0 <= o < mid.n() && #[trigger] mid.generated@[o] >= mid.limits@[o];
                assert(o != order);
                assert(self.generated@[o] >= self.limits@[o]);
            }
            assert(self.seen@[order as int].contains(view));
            lemma_queue_entries(mid.primary@, self.primary@, order as int);
            if mid.secondary@.len() > 0 {
                lemma_queue_entries(mid.secondary@, self.secondary@, order as int);
            }
            assert(mid.limits@[order as int] == limit_of(params, order as int));
            assert(is_offered(params, &start, self, view, r));
        }
    }
}

/// The search took in a child as it should.
spec fn is_offered(params: &Parameters, a: &Search, b: &Search, child: PlanView, r: Option<Ranking>) -> bool {
    b.rest() == offered(params, a.rest(), child, r)
}

/// One queue changed.
proof fn lemma_queue_entries(a: Seq<PlanQueue>, b: Seq<PlanQueue>, o: int)
    requires
        0 <= o < a.len(),
        b == a.update(o, b[o]),
    ensures
        all_entries(b) == all_entries(a).update(o, b[o].entries()),
{
    assert(all_entries(b) =~= all_entries(a).update(o, b[o].entries()));
}

/// Equal shares of what can be counted.
proof fn lemma_share(n: usize)
    requires
        n > 0,
    ensures
        1 <= usize::MAX / n,
        n * (usize::MAX / n) <= usize::MAX,
{
    assert(1 <= usize::MAX / n && n * (usize::MAX / n) <= usize::MAX) by (nonlinear_arith)
        requires
            0 < n <= usize::MAX,
    ;
}

proof fn lemma_closed_grows(pl: &Planner, params: &Parameters, order: int, a: Set<PlanView>, b: Set<PlanView>, p: PlanView)
    requires
        is_closed_off(pl, params, order, a, p),
        a.subset_of(b),
    ensures
        is_closed_off(pl, params, order, b, p),
{
    if !is_complete(pl.t(), p) {
        let flaw = choose|flaw: SelectedFlaw| #[trigger]
            selects(pl.t(), pl.model(), p, tiers_of(params, order), flaw) && forall|q: PlanView|
                flaw_children(pl.t(), pl.model(), p, flaw).contains(q) ==> #[trigger] a.contains(q) || is_dead(pl, params, q);
        assert forall|q: PlanView| flaw_children(pl.t(), pl.model(), p, flaw).contains(q) implies #[trigger] b.contains(q) || is_dead(
            pl,
            params,
            q,
        ) by {
            assert(a.contains(q) || is_dead(pl, params, q));
        }
    }
}

/// The marks of expanded plans, by id, with one more plan marked. Ids up to it that
/// had no mark yet are not marked.
spec fn with_mark(marks: Seq<bool>, id: usize) -> Seq<bool> {
    let n = if marks.len() <= id {
        (id + 1) as nat
    } else {
        marks.len()
    };
    Seq::new(n, |k: int| k == id || (k < marks.len() && marks[k]))
}

impl Search {
    /// Marks the plan as expanded.
    fn mark(&mut self, id: usize)
        requires
            id < usize::MAX,
        ensures
            final(self).primary == old(self).primary,
            final(self).secondary == old(self).secondary,
            final(self).limits == old(self).limits,
            final(self).generated == old(self).generated,
            final(self).stats == old(self).stats,
            final(self).order == old(self).order,
            final(self).orders_left == old(self).orders_left,
            final(self).next_switch == old(self).next_switch,
            final(self).limit_reached == old(self).limit_reached,
            final(self).best_h == old(self).best_h,
            final(self).boost == old(self).boost,
            final(self).pops == old(self).pops,
            final(self).rank0 == old(self).rank0,
            final(self).f_limit == old(self).f_limit,
            final(self).next_f_limit == old(self).next_f_limit,
            final(self).history == old(self).history,
            final(self).seen == old(self).seen,
            final(self).done == old(self).done,
            final(self).expanded@ == with_mark(old(self).expanded@, id),
    {
        let ghost start = self.expanded@;
        while self.expanded.len() <= id
            invariant
                id < usize::MAX,
                start == old(self).expanded@,
                self.primary == old(self).primary,
                self.secondary == old(self).secondary,
                self.limits == old(self).limits,
                self.generated == old(self).generated,
                self.stats == old(self).stats,
                self.order == old(self).order,
                self.orders_left == old(self).orders_left,
                self.next_switch == old(self).next_switch,
                self.limit_reached == old(self).limit_reached,
                self.best_h == old(self).best_h,
                self.boost == old(self).boost,
                self.pops == old(self).pops,
                self.rank0 == old(self).rank0,
                self.f_limit == old(self).f_limit,
                self.next_f_limit == old(self).next_f_limit,
                self.history == old(self).history,
                self.seen == old(self).seen,
                self.done == old(self).done,
                start.len() <= self.expanded@.len(),
                forall|k: int| 0 <= k < start.len() ==> #[trigger] self.expanded@[k] == start[k],
                forall|k: int| start.len() <= k < self.expanded@.len() ==> !(#[trigger] self.expanded@[k]),
                self.expanded@.len() <= start.len() || self.expanded@.len() <= id + 1,
            decreases id + 1 - self.expanded@.len(),
        {
            self.expanded.push(false);
        }
        self.expanded.set(id, true);
        assert(self.expanded@ =~= with_mark(start, id));
    }

    fn is_marked(&self, id: usize) -> (res: bool)
        ensures
            res == (id < self.expanded@.len() && self.expanded@[id as int]),
    {
        id < self.expanded.len() && self.expanded[id]
    }

    /// The plan is dealt with: it is complete and does not execute, or its
    /// children have been placed.
    proof fn lemma_done(a: &Search, b: &Search, pl: &Planner, params: &Parameters, p: PlanView)
        requires
            a.base(pl, params),
            a.generated@[a.order as int] >= 1,
            b.n() == a.n(),
            b.order == a.order,
            b.primary@ == a.primary@,
            b.generated@ == a.generated@,
            b.seen@ == a.seen@,
            b.next_f_limit == a.next_f_limit,
            b.done@ == a.done@.update(a.order as int, a.done@[a.order as int].insert(p)),
            a.trace(pl, params, Some(p)),
            is_closed_off(pl, params, a.order as int, a.seen@[a.order as int], p) || a.is_cut(params),
        ensures
            b.trace(pl, params, None),
    {
        assert forall|o: int| 0 <= o < b.n() && #[trigger] b.generated@[o] >= 1 implies b.tree_ok(pl, params, o, None) by {
            assert(a.generated@[o] >= 1);
            assert(a.tree_ok(pl, params, o, Some(p)));
            if o != a.order {
                assert(b.done@[o] == a.done@[o]);
            }
            assert forall|q: PlanView| #[trigger] b.seen@[o].contains(q) implies b.done@[o].contains(q) || waits(b.primary@[o], q)
                || is_dead(pl, params, q) by {
                assert(a.seen@[o].contains(q));
            }
            assert forall|q: PlanView| #[trigger] b.done@[o].contains(q) implies is_closed_off(pl, params, o, b.seen@[o], q) || b.is_cut(
                params,
            ) by {
                if !(o == a.order && q == p) {
                    assert(a.done@[o].contains(q));
                }
            }
        }
    }

    /// Notes that the plan has been dealt with.
    fn close(&mut self, pl: &Planner, params: &Parameters, plan: &PartialPlan)
        requires
            old(self).base(pl, params),
            old(self).current_ok(pl, *plan),
        ensures
            final(self).base(pl, params),
            final(self).same_course(old(self)),
            final(self).primary == old(self).primary,
            final(self).secondary == old(self).secondary,
            final(self).generated == old(self).generated,
            final(self).history == old(self).history,
            final(self).next_f_limit == old(self).next_f_limit,
            final(self).done@[old(self).order as int].contains(plan@),
            final(self).rest() == old(self).rest(),
            old(self).trace(pl, params, Some(plan@)) && (is_closed_off(
                pl,
                params,
                old(self).order as int,
                old(self).seen@[old(self).order as int],
                plan@,
            ) || old(self).is_cut(params)) ==> final(self).trace(pl, params, None),
    {
        let ghost start = *self;
        let ghost p = plan@;
        let ghost o = self.order as int;
        proof {
            self.done@ = start.done@.update(o, start.done@[o].insert(p));
            lemma_same_base(&start, self, pl, params);
            if start.trace(pl, params, Some(p)) && (is_closed_off(pl, params, o, start.seen@[o], p) || start.is_cut(params)) {
                Self::lemma_done(&start, self, pl, params, p);
            }
        }
    }

    /// Notes the number of an expanded plan, where there are two queues.
    fn note(&mut self, pl: &Planner, params: &Parameters, plan: &PartialPlan)
        requires
            old(self).base(pl, params),
            old(self).current_ok(pl, *plan),
            old(self).done@[old(self).order as int].contains(plan@),
        ensures
            final(self).base(pl, params),
            final(self).same_course(old(self)),
            final(self).primary == old(self).primary,
            final(self).secondary == old(self).secondary,
            final(self).generated == old(self).generated,
            final(self).history == old(self).history,
            final(self).next_f_limit == old(self).next_f_limit,
            final(self).rest() == marked(params, old(self).rest(), plan.id),
            old(self).trace(pl, params, None) ==> final(self).trace(pl, params, None),
    {
        let ghost noted = *self;
        if uses_two_queues(params.search_algorithm) {
            self.mark(plan.id);
            proof {
                let o = self.order as int;
                lemma_marks(noted.expanded@, plan.id);
                assert forall|k: int| 0 <= k < self.n() implies self.queue_ok(pl, k, #[trigger] self.primary@[k]) by {
                    lemma_queue_ok_grows(&noted, self, pl, k, noted.primary@[k]);
                }
                assert forall|k: int| 0 <= k < self.secondary@.len() implies self.queue_ok(pl, k, #[trigger] self.secondary@[k]) by {
                    lemma_queue_ok_grows(&noted, self, pl, k, noted.secondary@[k]);
                }
                assert forall|id: int| 0 < id < self.expanded@.len() && #[trigger] self.expanded@[id] implies id < self.history@.len()
                    && self.done@[self.history@[id].order].contains(self.history@[id].view) by {
                    if id == plan.id {
                        assert(noted.history@[id] == (Node { order: o, view: plan@ }));
                    } else {
                        assert(noted.expanded@[id]);
                    }
                }
                if self.limit_reached {
                    let k = choose|k: int| 0 <= k < noted.n() && #[trigger] noted.generated@[k] >= noted.limits@[k];
                    assert(self.generated@[k] >= self.limits@[k]);
                }
                if noted.trace(pl, params, None) {
                    assert forall|k: int| 0 <= k < self.n() && #[trigger] self.generated@[k] >= 1 implies self.tree_ok(pl, params, k, None) by {
                        assert(noted.generated@[k] >= 1);
                        assert(noted.tree_ok(pl, params, k, None));
                    }
                }
            }
        }
    }

    /// Counts the plan as visited.
    fn visit(&mut self, pl: &Planner, params: &Parameters, plan: &PartialPlan)
        requires
            old(self).base(pl, params),
            plan.wf(pl.t()),
        ensures
            final(self).base(pl, params),
            final(self).same_course(old(self)),
            final(self).primary == old(self).primary,
            final(self).secondary == old(self).secondary,
            final(self).limits == old(self).limits,
            final(self).generated == old(self).generated,
            final(self).history == old(self).history,
            final(self).seen == old(self).seen,
            final(self).done == old(self).done,
            final(self).next_f_limit == old(self).next_f_limit,
            final(self).rest() == visited(pl, params, old(self).rest(), plan@),
            old(self).trace(pl, params, Some(plan@)) ==> final(self).trace(pl, params, Some(plan@)),
    {
        let ghost start = *self;
        let ghost p = plan@;
        proof {
            crate::fdr_plan::lemma_threats(p, pl.t(), plan.threats@);
            assert(plan.threats.len() == plan.threats@.len());
            reveal(visited);
        }
        self.stats.nodes_visited = self.stats.nodes_visited.saturating_add(1);
        if plan.steps.len() > self.stats.max_steps {
            self.stats.max_steps = plan.steps.len();
        }
        if plan.open_conditions.len() > self.stats.max_open_conditions {
            self.stats.max_open_conditions = plan.open_conditions.len();
        }
        if plan.threats.len() > self.stats.max_threats {
            self.stats.max_threats = plan.threats.len();
        }
        if params.search_algorithm == SearchAlgorithm::LazyGbfsDual {
            if self.rank0 < self.best_h {
                self.best_h = self.rank0;
                self.boost = self.boost.saturating_add(10);
            }
            self.boost = self.boost.saturating_sub(1);
        }
        proof {
            lemma_same_base(&start, self, pl, params);
            if start.trace(pl, params, Some(p)) {
                assert forall|o: int| 0 <= o < self.n() && #[trigger] self.generated@[o] >= 1 implies self.tree_ok(pl, params, o, Some(p)) by {
                    assert(start.generated@[o] >= 1);
                    assert(start.tree_ok(pl, params, o, Some(p)));
                }
            }
        }
    }

    /// Offers the refinements of a flaw of the plan.
    #[verifier::rlimit(40)]
    fn spread(&mut self, pl: &Planner, params: &Parameters, plan: &PartialPlan) -> (res: Ghost<(SelectedFlaw, Seq<Option<Ranking>>)>)
        requires
            old(self).base(pl, params),
            old(self).current_ok(pl, *plan),
            !is_complete(pl.t(), plan@),
        ensures
            is_further(pl, params, old(self), final(self)) || *final(self) == *old(self),
            ({
                let (flaw, ranks) = res@;
                let views = flaw_children(pl.t(), pl.model(), plan@, flaw);
                &&& selects(pl.t(), pl.model(), plan@, tiers_of(params, old(self).order as int), flaw)
                &&& ranks.len() == views.len()
                &&& are_rankings(pl, params, old(self).rest(), views, ranks, views.len())
                &&& final(self).rest() == offered_all(params, old(self).rest(), views, ranks, views.len())
                &&& forall|k: int| 0 <= k < views.len() ==> is_placed(pl, params, final(self), #[trigger] views[k])
            }),
    {
        let ghost begun = *self;
        let ghost p = plan@;
        let ghost t = pl.t();
        proof {
            crate::fdr_plan::lemma_threats(p, t, plan.threats@);
        }
        let children = pl.refinements(plan, &params.flaw_orders[self.order]);
        let ghost mut ranks: Seq<Option<Ranking>> = Seq::empty();
        let ghost views = plan_views(children@);
        let ghost flaw = choose|flaw: SelectedFlaw| #[trigger]
            selects(t, pl.model(), p, tiers_of(params, self.order as int), flaw) && views == flaw_children(t, pl.model(), p, flaw);
        let ghost j = choose|j: int|
            0 <= j < self.history@.len() && #[trigger] self.history@[j] == (Node { order: self.order as int, view: p });
        let mut i: usize = 0;
        while i < children.len()
            invariant
                begun == *old(self),
                t == pl.t(),
                p == plan@,
                self.base(pl, params),
                begun.base(pl, params),
                begun.order == self.order,
                is_further(pl, params, &begun, self) || *self == begun,
                selects(t, pl.model(), p, tiers_of(params, self.order as int), flaw),
                views == flaw_children(t, pl.model(), p, flaw),
                views == plan_views(children@),
                crate::fdr_refine::all_wf(t, children@),
                0 <= j < begun.history@.len(),
                begun.history@[j] == (Node { order: begun.order as int, view: p }),
                i <= children@.len(),
                forall|k: int| 0 <= k < i ==> is_placed(pl, params, self, #[trigger] views[k]),
                self.rank0 == begun.rank0,
                ranks.len() == i,
                self.rest() == offered_all(params, begun.rest(), views, ranks, i as nat),
                are_rankings(pl, params, begun.rest(), views, ranks, i as nat),
            decreases children@.len() - i,
        {
            let mut child = children[i].clone();
            child.id = self.stats.nodes_generated;
            let ghost before = *self;
            let ghost view = child@;
            proof {
                assert(children@[i as int].wf(t));
                assert(views[i as int] == child@);
                assert(views.contains(child@));
                assert(is_child(pl, params, self.order as int, p, child@));
                assert(self.history@[j] == begun.history@[j]);
            }
            let ghost id = child.id;
            self.offer(pl, params, child, Ghost(p));
            proof {
                let r = choose|r: Option<Ranking>| #[trigger]
                    is_ranking(pl, params, before.rank0, view, id, r) && self.rest() == offered(params, before.rest(), view, r);
                let more = ranks.push(r);
                assert(before.rest().tally.nodes_generated == id);
                lemma_more_ranks(pl, params, begun.rest(), views, ranks, r, i as nat);
                lemma_rank_prefix(params, begun.rest(), views, ranks, more, i as nat);
                assert(more[i as int] == r);
                ranks = more;
                if before != begun {
                    lemma_further_transitive(pl, params, &begun, &before, self);
                }
                assert forall|k: int| 0 <= k < i + 1 implies is_placed(pl, params, self, #[trigger] views[k]) by {
                    if k < i {
                        lemma_still_placed(pl, params, &before, self, views[k]);
                    }
                }
            }
            i = i + 1;
        }
        Ghost((flaw, ranks))
    }

    /// Expands the plan: selects a flaw and offers its refinements.
    #[verifier::rlimit(40)]
    fn expand(&mut self, pl: &Planner, params: &Parameters, plan: &PartialPlan)
        requires
            old(self).base(pl, params),
            old(self).current_ok(pl, *plan),
            old(self).accounts(pl, params, Some(plan@)),
            old(self).orders_ok(),
            !is_complete(pl.t(), plan@),
        ensures
            final(self).base(pl, params),
            final(self).same_course(old(self)),
            final(self).orders_ok(),
            final(self).generated@[final(self).order as int] >= 1,
            final(self).history@.len() >= old(self).history@.len(),
            final(self).generated@[final(self).order as int] >= final(self).limits@[final(self).order as int] || final(self).accounts(
                pl,
                params,
                None,
            ),
            final(self).left() < old(self).left() || (final(self).left() == old(self).left() && final(self).load() == old(self).load()),
            is_spread(pl, params, old(self).rest(), plan@, plan.id, final(self).rest()),
    {
        let ghost start = *self;
        let ghost p = plan@;
        let ghost t = pl.t();
        self.visit(pl, params, plan);
        let ghost begun = *self;
        let found = self.spread(pl, params, plan);
        let ghost flaw = found@.0;
        let ghost ranks = found@.1;
        let ghost offered = *self;
        let ghost views = flaw_children(t, pl.model(), p, flaw);
        proof {
            let o = self.order as int;
            let j = choose|j: int|
                0 <= j < begun.history@.len() && #[trigger] begun.history@[j] == (Node { order: begun.order as int, view: p });
            assert(self.history@[j] == begun.history@[j]);
            assert(self.current_ok(pl, *plan)) by {
                if plan.id != 0 {
                    assert(self.history@[plan.id as int] == begun.history@[plan.id as int]);
                }
            }
            if begun.trace(pl, params, Some(p)) && self.generated@[o] < self.limits@[o] {
                // Without a limit and a bound every child is known or dead.
                if !offered.is_cut(params) {
                    assert forall|q: PlanView| views.contains(q) implies #[trigger] offered.seen@[o].contains(q) || is_dead(
                        pl,
                        params,
                        q,
                    ) by {
                        let k = choose|k: int| 0 <= k < views.len() && views[k] == q;
                        assert(is_placed(pl, params, &offered, views[k]));
                    }
                    assert(is_countable(p)) by {
                        assert(plan.links.len() == plan.links@.len());
                        assert(plan.open_conditions.len() == plan.open_conditions@.len());
                    }
                    assert(is_closed_off(pl, params, o, offered.seen@[o], p));
                }
                lemma_trace_grows(pl, params, &begun, &offered, p);
            }
        }
        self.close(pl, params, plan);
        let ghost closed = *self;
        proof {
            assert(closed.current_ok(pl, *plan)) by {
                assert(closed.history@ == offered.history@);
                assert(offered.current_ok(pl, *plan));
            }
        }
        self.note(pl, params, plan);
        proof {
            assert(spreads_by(pl, params, start.rest(), p, plan.id, flaw, ranks, self.rest()));
        }
    }
}

/// A first part of the ranks does as well as all.
proof fn lemma_rank_prefix(
    params: &Parameters,
    st: State,
    views: Seq<PlanView>,
    ranks: Seq<Option<Ranking>>,
    more: Seq<Option<Ranking>>,
    n: nat,
)
    requires
        n <= ranks.len() <= more.len(),
        forall|k: int| 0 <= k < ranks.len() ==> #[trigger] more[k] == ranks[k],
    ensures
        offered_all(params, st, views, more, n) == offered_all(params, st, views, ranks, n),
    decreases n,
{
    if n > 0 {
        lemma_rank_prefix(params, st, views, ranks, more, (n - 1) as nat);
    }
}

proof fn lemma_more_ranks(
    pl: &Planner,
    params: &Parameters,
    st: State,
    views: Seq<PlanView>,
    ranks: Seq<Option<Ranking>>,
    r: Option<Ranking>,
    n: nat,
)
    requires
        ranks.len() == n,
        are_rankings(pl, params, st, views, ranks, n),
        is_ranking(pl, params, st.rank0, views[n as int], offered_all(params, st, views, ranks, n).tally.nodes_generated, r),
    ensures
        are_rankings(pl, params, st, views, ranks.push(r), n + 1),
{
    let more = ranks.push(r);
    assert forall|k: int| 0 <= k < n + 1 implies is_ranking(
        pl,
        params,
        st.rank0,
        views[k],
        offered_all(params, st, views, more, k as nat).tally.nodes_generated,
        #[trigger] more[k],
    ) by {
        lemma_rank_prefix(params, st, views, ranks, more, k as nat);
        if k < n {
            assert(more[k] == ranks[k]);
        }
    }
}

proof fn lemma_trace_grows(pl: &Planner, params: &Parameters, a: &Search, b: &Search, p: PlanView)
    requires
        a.base(pl, params),
        a.trace(pl, params, Some(p)),
        is_further(pl, params, a, b) || *a == *b,
        a.generated@[a.order as int] >= 1,
    ensures
        b.trace(pl, params, Some(p)),
{
    if *a != *b {
        assert forall|o: int| 0 <= o < b.n() && #[trigger] b.generated@[o] >= 1 implies b.tree_ok(pl, params, o, Some(p)) by {
            if o != a.order {
                assert(b.seen@[o] == a.seen@[o]);
                assert(a.generated@[o] >= 1);
                assert(a.tree_ok(pl, params, o, Some(p)));
                assert forall|q: PlanView| #[trigger] b.done@[o].contains(q) implies is_closed_off(pl, params, o, b.seen@[o], q)
                    || b.is_cut(params) by {
                    assert(a.done@[o].contains(q));
                }
            } else {
                assert(a.tree_ok(pl, params, o, Some(p)));
                assert forall|q: PlanView| #[trigger] b.seen@[o].contains(q) implies b.done@[o].contains(q) || waits(b.primary@[o], q)
                    || is_dead(pl, params, q) || Some(p) == Some(q) by {
                    if a.seen@[o].contains(q) {
                        if waits(a.primary@[o], q) {
                            assert(waits(b.primary@[o], q));
                        }
                    }
                }
                assert forall|q: PlanView| #[trigger] b.done@[o].contains(q) implies is_closed_off(pl, params, o, b.seen@[o], q)
                    || b.is_cut(params) by {
                    assert(a.done@[o].contains(q));
                    if is_closed_off(pl, params, o, a.seen@[o], q) {
                        lemma_closed_grows(pl, params, o, a.seen@[o], b.seen@[o], q);
                    }
                }
            }
        }
    }
}

/// The two searches differ in queues and in what the statistics count besides
/// the generated plans.
spec fn same_but_queues(a: &Search, b: &Search) -> bool {
    &&& b.same_course(a)
    &&& b.limits == a.limits
    &&& b.generated == a.generated
    &&& b.expanded == a.expanded
    &&& b.stats.nodes_generated == a.stats.nodes_generated
    &&& b.next_f_limit == a.next_f_limit
    &&& b.history == a.history
    &&& b.seen == a.seen
    &&& b.done == a.done
    &&& b.primary@.len() == a.primary@.len()
    &&& b.secondary@.len() == a.secondary@.len()
}

/// A queue of the current order changed.
proof fn lemma_queue_changed(pl: &Planner, params: &Parameters, a: &Search, b: &Search)
    requires
        a.base(pl, params),
        same_but_queues(a, b),
        b.rank0 != INFINITE_RANK,
        forall|o: int| 0 <= o < a.n() && o != a.order ==> #[trigger] b.primary@[o] == a.primary@[o],
        forall|o: int| 0 <= o < a.secondary@.len() && o != a.order ==> #[trigger] b.secondary@[o] == a.secondary@[o],
        b.queue_ok(pl, a.order as int, b.primary@[a.order as int]),
        a.secondary@.len() > 0 ==> b.queue_ok(pl, a.order as int, b.secondary@[a.order as int]),
    ensures
        b.base(pl, params),
{
    assert forall|o: int| 0 <= o < b.n() implies b.queue_ok(pl, o, #[trigger] b.primary@[o]) by {
        if o != a.order {
            lemma_queue_ok_grows(a, b, pl, o, a.primary@[o]);
        }
    }
    assert forall|o: int| 0 <= o < b.secondary@.len() implies b.queue_ok(pl, o, #[trigger] b.secondary@[o]) by {
        if o != a.order {
            lemma_queue_ok_grows(a, b, pl, o, a.secondary@[o]);
        }
    }
    if b.limit_reached {
        let o = choose|o: int| 0 <= o < a.n() && #[trigger] a.generated@[o] >= a.limits@[o];
        assert(b.generated@[o] >= b.limits@[o]);
    }
}

/// The plans that waited under the current order still do, but for the excepted one.
proof fn lemma_trace_queue(pl: &Planner, params: &Parameters, a: &Search, b: &Search, before: Option<PlanView>, after: Option<PlanView>)
    requires
        a.base(pl, params),
        same_but_queues(a, b),
        forall|o: int| 0 <= o < a.n() && o != a.order ==> #[trigger] b.primary@[o] == a.primary@[o],
        forall|p: PlanView|
            waits(a.primary@[a.order as int], p) ==> #[trigger] waits(b.primary@[a.order as int], p) || after == Some(p) || b.done@[a.order as int].contains(p)
                || is_dead(pl, params, p),
        before matches Some(p) ==> after == Some(p) || waits(b.primary@[a.order as int], p) || is_dead(pl, params, p)
            || b.done@[a.order as int].contains(p),
        a.trace(pl, params, before),
    ensures
        b.trace(pl, params, after),
{
    assert forall|o: int| 0 <= o < b.n() && #[trigger] b.generated@[o] >= 1 implies b.tree_ok(pl, params, o, after) by {
        assert(a.generated@[o] >= 1);
        assert(a.tree_ok(pl, params, o, before));
        assert forall|q: PlanView| #[trigger] b.seen@[o].contains(q) implies b.done@[o].contains(q) || waits(b.primary@[o], q) || is_dead(
            pl,
            params,
            q,
        ) || (o == b.order && after == Some(q)) by {
            assert(a.seen@[o].contains(q));
            if o == a.order && waits(a.primary@[o], q) {
                assert(waits(b.primary@[a.order as int], q) || after == Some(q) || b.done@[a.order as int].contains(q) || is_dead(
                    pl,
                    params,
                    q,
                ));
            }
        }
        assert forall|q: PlanView| #[trigger] b.done@[o].contains(q) implies is_closed_off(pl, params, o, b.seen@[o], q) || b.is_cut(
            params,
        ) by {
            assert(a.done@[o].contains(q));
        }
    }
}

impl Search {
    /// Takes a plan out of a queue of the current order.
    fn take(&mut self, pl: &Planner, params: &Parameters, second: bool) -> (res: Option<Rc<QueuedPlan>>)
        requires
            old(self).base(pl, params),
            second ==> has_two_queues(params.search_algorithm),
        ensures
            same_but_queues(old(self), final(self)),
            final(self).base(pl, params),
            final(self).rank0 == old(self).rank0,
            final(self).boost == old(self).boost,
            final(self).pops == old(self).pops,
            match res {
                Some(item) => {
                    &&& final(self).item_ok(pl, final(self).order as int, *item)
                    &&& final(self).load() + turns(*item) == old(self).load()
                    &&& old(self).trace(pl, params, None) ==> final(self).trace(pl, params, Some(item.plan@))
                    &&& is_least(queue_at(old(self).rest(), second), entry_of(*item))
                    &&& final(self).rest() == without(old(self).rest(), second, entry_of(*item))
                },
                None => {
                    &&& queue_at(old(self).rest(), second).len() == 0
                    &&& final(self).rest() == old(self).rest()
                    &&& final(self).load() == old(self).load()
                    &&& old(self).trace(pl, params, None) ==> final(self).trace(pl, params, None)
                    &&& final(self).primary@ == old(self).primary@
                    &&& !second ==> final(self).primary@[final(self).order as int].contents().len() == 0
                },
            },
    {
        broadcast use vstd::multiset::group_multiset_axioms;

        let ghost start = *self;
        let order = self.order;
        let ghost o = order as int;
        let res = if second {
            self.secondary[order].pop()
        } else {
            self.primary[order].pop()
        };
        proof {
            if second {
                assert(start.queue_ok(pl, o, start.secondary@[o]));
                assert(self.secondary@ == start.secondary@.update(o, self.secondary@[o]));
                lemma_total_load(start.secondary@, o, self.secondary@[o]);
                assert(self.primary@ == start.primary@);
                assert(start.queue_ok(pl, o, start.primary@[o]));
            } else {
                assert(start.queue_ok(pl, o, start.primary@[o]));
                assert(self.primary@ == start.primary@.update(o, self.primary@[o]));
                lemma_total_load(start.primary@, o, self.primary@[o]);
                if start.secondary@.len() > 0 {
                    assert(start.queue_ok(pl, o, start.secondary@[o]));
                }
            }
            assert(self.queue_ok(pl, o, self.primary@[o])) by {
                assert forall|x: Rc<QueuedPlan>| #[trigger] self.primary@[o].contents().contains(x) implies self.item_ok(pl, o, *x) by {
                    assert(start.primary@[o].contents().contains(x));
                    assert(start.item_ok(pl, o, *x));
                }
            }
            if start.secondary@.len() > 0 {
                assert(self.queue_ok(pl, o, self.secondary@[o])) by {
                    assert forall|x: Rc<QueuedPlan>| #[trigger] self.secondary@[o].contents().contains(x) implies self.item_ok(
                        pl,
                        o,
                        *x,
                    ) by {
                        assert(start.secondary@[o].contents().contains(x));
                        assert(start.item_ok(pl, o, *x));
                    }
                }
            }
            lemma_queue_changed(pl, params, &start, self);
            if second {
                lemma_queue_entries(start.secondary@, self.secondary@, o);
            } else {
                lemma_queue_entries(start.primary@, self.primary@, o);
            }
            if res is Some {
                let item = res->0;
                assert(start.item_ok(pl, o, *item));
                assert(self.item_ok(pl, o, *item));
                assert(self.load() + turns(*item) == start.load());
                if start.trace(pl, params, None) {
                    assert forall|p: PlanView| waits(start.primary@[o], p) implies #[trigger] waits(self.primary@[o], p) || Some(
                        item.plan@,
                    ) == Some(p) || self.done@[o].contains(p) || is_dead(pl, params, p) by {
                        if !second {
                            let x = choose|x: Rc<QueuedPlan>| #[trigger] start.primary@[o].contents().contains(x) && x.plan@ == p;
                            if x != item {
                                assert(self.primary@[o].contents().contains(x));
                            }
                        }
                    }
                    lemma_trace_queue(pl, params, &start, self, None, Some(item.plan@));
                }
            } else {
                assert(self.primary@ =~= start.primary@);
                assert(self.secondary@ =~= start.secondary@);
                if start.trace(pl, params, None) {
                    lemma_trace_queue(pl, params, &start, self, None, None);
                }
            }
        }
        res
    }

    /// The next plan to expand under the current order. A plan with a stand-in
    /// rank is ranked first and goes back to its queue, or is dropped if it
    /// leads nowhere.
    #[verifier::rlimit(30)]
    fn pop_next(&mut self, pl: &Planner, params: &Parameters, Ghost(first): Ghost<State>) -> (res: Option<Rc<PartialPlan>>)
        requires
            leads(pl, params, first, sought(params, old(self).rest())),
            old(self).base(pl, params),
            old(self).accounts(pl, params, None),
            old(self).generated@[old(self).order as int] >= 1,
        ensures
            same_but_queues(old(self), final(self)),
            final(self).base(pl, params),
            match res {
                Some(plan) => {
                    &&& final(self).current_ok(pl, *plan)
                    &&& final(self).accounts(pl, params, Some(plan@))
                    &&& final(self).load() < old(self).load()
                    &&& leads(pl, params, first, final(self).state(Phase::Plan(plan@, plan.id)))
                },
                None => {
                    &&& leads(pl, params, first, final(self).state(Phase::Empty))
                    &&& final(self).accounts(pl, params, None)
                    &&& final(self).load() <= old(self).load()
                    &&& final(self).primary@[final(self).order as int].contents().len() == 0
                },
            },
    {
        broadcast use vstd::multiset::group_multiset_axioms;

        let ghost start = *self;
        let algorithm = params.search_algorithm;
        let is_alt = algorithm == SearchAlgorithm::Alt;
        let is_dual = algorithm == SearchAlgorithm::LazyGbfsDual;
        let mut alternate = false;
        if is_alt {
            self.pops = self.pops.saturating_add(1);
            alternate = self.pops % 2 == 0;
        }
        proof {
            lemma_same_base(&start, self, pl, params);
            if start.trace(pl, params, None) {
                lemma_trace_queue(pl, params, &start, self, None, None);
            }
        }
        loop
            invariant
                start == *old(self),
                same_but_queues(&start, self),
                start.generated@[start.order as int] >= 1,
                self.base(pl, params),
                self.accounts(pl, params, None),
                self.load() <= start.load(),
                algorithm == params.search_algorithm,
                is_alt == (algorithm == SearchAlgorithm::Alt),
                is_dual == (algorithm == SearchAlgorithm::LazyGbfsDual),
                alternate ==> is_alt,
                leads(pl, params, first, self.state(Phase::Next(alternate))),
            decreases self.load(),
        {
            let ghost begun = *self;
            let ghost here = self.state(Phase::Next(alternate));
            let mut second = alternate;
            if is_dual && self.boost == 0 {
                self.pops = self.pops.saturating_add(1);
                second = self.pops % 3 == 0;
            }
            proof {
                lemma_same_base(&begun, self, pl, params);
                if begun.trace(pl, params, None) {
                    lemma_trace_queue(pl, params, &begun, self, None, None);
                }
            }
            let ghost counted = *self;
            let ghost mut from = second;
            let mut queued = self.take(pl, params, second);
            if queued.is_none() {
                if second {
                    proof {
                        from = false;
                    }
                    queued = self.take(pl, params, false);
                } else if is_alt {
                    proof {
                        from = true;
                    }
                    queued = self.take(pl, params, true);
                }
            }
            let queued = match queued {
                Some(item) => item,
                None => {
                    let ghost before = *self;
                    self.rank0 = 0;
                    proof {
                        lemma_empty_stays(pl, params, &before, self);
                        assert(source(params, here, second) is None);
                        assert(is_taken(pl, params, here, alternate, self.state(Phase::Empty))) by {
                            reveal(is_taken);
                        }
                        lemma_leads(pl, params, first, here, self.state(Phase::Empty));
                    }
                    return None;
                },
            };
            let ghost taken = *self;
            let ghost view = queued.plan@;
            let ghost o = self.order as int;
            let ghost e = shared_entry(queued);
            proof {
                assert(queue_at(here, from).contains(e));
                assert(queue_at(here, from).len() > 0);
                assert(source(params, here, second) == Some(from));
                assert(taken.rest() == without(counted.rest(), from, e));
            }
            if (is_dual || is_alt) && self.is_marked(queued.plan.id) {
                proof {
                    assert(self.done@[o].contains(view));
                    if taken.trace(pl, params, Some(view)) {
                        lemma_trace_queue(pl, params, &taken, self, Some(view), None);
                    }
                    let there = self.state(Phase::Next(alternate));
                    crate::fdr_run::lemma_taken(pl, params, here, alternate, second, from, e, there);
                    lemma_leads(pl, params, first, here, there);
                }
                continue;
            }
            if !is_lazy_algorithm(algorithm) || !queued.is_lazy {
                let ghost before = *self;
                self.rank0 = queued.rank[0];
                proof {
                    lemma_rank0(pl, params, &before, self, Some(view));
                    assert(self.history@[queued.plan.id as int] == (Node { order: o, view }));
                    let there = self.state(Phase::Plan(view, queued.plan.id));
                    crate::fdr_run::lemma_taken(pl, params, here, alternate, second, from, e, there);
                    lemma_leads(pl, params, first, here, there);
                }
                return Some(Rc::clone(&queued.plan));
            }
            let (_, rank) = pl.rank_both(&*queued.plan, params.weight, params.heuristic.terms(), &mut self.stats);
            proof {
                lemma_same_base(&taken, self, pl, params);
                if taken.trace(pl, params, Some(view)) {
                    lemma_trace_queue(pl, params, &taken, self, Some(view), Some(view));
                }
            }
            let ghost ranked = *self;
            let ghost greedy = rank@;
            proof {
                assert(is_greedy_rank(pl, params, view, queued.plan.id, greedy));
            }
            if rank[0] != INFINITE_RANK {
                let order = self.order;
                let again = QueuedPlan { plan: Rc::clone(&queued.plan), rank, is_lazy: false };
                let ghost item = again;
                self.primary[order].push(again);
                proof {
                    assert(self.primary@ == ranked.primary@.update(o, self.primary@[o]));
                    lemma_total_load(ranked.primary@, o, self.primary@[o]);
                    lemma_push_waits(ranked.primary@[o], self.primary@[o], Rc::new(item));
                    assert(ranked.queue_ok(pl, o, ranked.primary@[o]));
                    assert(self.queue_ok(pl, o, self.primary@[o])) by {
                        assert forall|x: Rc<QueuedPlan>| #[trigger] self.primary@[o].contents().contains(x) implies self.item_ok(
                            pl,
                            o,
                            *x,
                        ) by {
                            if x != Rc::new(item) {
                                assert(ranked.primary@[o].contents().contains(x));
                                assert(ranked.item_ok(pl, o, *x));
                            }
                        }
                    }
                    if ranked.secondary@.len() > 0 {
                        lemma_queue_ok_grows(&ranked, self, pl, o, ranked.secondary@[o]);
                    }
                    lemma_queue_changed(pl, params, &ranked, self);
                    lemma_queue_entries(ranked.primary@, self.primary@, o);
                    if ranked.trace(pl, params, Some(view)) {
                        lemma_trace_queue(pl, params, &ranked, self, Some(view), None);
                    }
                }
            } else {
                proof {
                    lemma_lazy_dead(pl, params, &*queued.plan, rank@);
                    if ranked.trace(pl, params, Some(view)) {
                        lemma_trace_queue(pl, params, &ranked, self, Some(view), None);
                    }
                }
            }
            proof {
                let there = self.state(Phase::Next(alternate));
                assert(there == reranked(State { phase: Phase::Next(alternate), ..taken.rest() }, alternate, e, greedy));
                crate::fdr_run::lemma_taken(pl, params, here, alternate, second, from, e, there);
                lemma_leads(pl, params, first, here, there);
            }
        }
    }
}

proof fn lemma_rank0(pl: &Planner, params: &Parameters, a: &Search, b: &Search, except: Option<PlanView>)
    requires
        a.base(pl, params),
        same_but_queues(a, b),
        b.primary == a.primary,
        b.secondary == a.secondary,
        b.rank0 != INFINITE_RANK,
    ensures
        b.base(pl, params),
        a.trace(pl, params, except) ==> b.trace(pl, params, except),
        b.load() == a.load(),
{
    let o = a.order as int;
    lemma_queue_ok_grows(a, b, pl, o, a.primary@[o]);
    if a.secondary@.len() > 0 {
        lemma_queue_ok_grows(a, b, pl, o, a.secondary@[o]);
    }
    lemma_queue_changed(pl, params, a, b);
    if a.trace(pl, params, except) {
        lemma_trace_queue(pl, params, a, b, except, except);
    }
}

proof fn lemma_empty_stays(pl: &Planner, params: &Parameters, a: &Search, b: &Search)
    requires
        a.base(pl, params),
        same_but_queues(a, b),
        b.primary == a.primary,
        b.secondary == a.secondary,
        b.rank0 != INFINITE_RANK,
    ensures
        b.base(pl, params),
        a.trace(pl, params, None) ==> b.trace(pl, params, None),
        b.load() == a.load(),
{
    lemma_rank0(pl, params, a, b, None);
}

/// A lazily queued plan with an infinite rank leads nowhere.
proof fn lemma_lazy_dead(pl: &Planner, params: &Parameters, plan: &PartialPlan, greedy: Seq<i128>)
    requires
        plan.wf(pl.t()),
        params.search_algorithm != SearchAlgorithm::Bfs,
        params.heuristic.ranking().len() > 0,
        greedy.len() > 0,
        greedy[0] == INFINITE_RANK,
        exists|rank: Seq<i128>| #[trigger]
            are_ranks(pl, params.weight, params.heuristic.ranking(), plan@, plan.id, rank, greedy),
    ensures
        is_dead(pl, params, plan@),
{
    let terms = params.heuristic.ranking();
    let rank = choose|rank: Seq<i128>| #[trigger] are_ranks(pl, params.weight, terms, plan@, plan.id, rank, greedy);
    crate::fdr_plan::lemma_threats(plan@, pl.t(), plan.threats@);
    assert(plan.threats.len() == plan.threats@.len());
    assert(plan.open_conditions.len() == plan.open_conditions@.len());
    assert(is_term_rank(pl, params.weight, plan@, plan.id, terms[0], (rank[0], greedy[0])));
    lemma_infinite(pl, params.weight, plan@, plan.id, terms[0], (rank[0], greedy[0]));
}

impl Search {
    /// Switches to another order when the current one has reached its limit or
    /// has had its turn. `false` when no order is left.
    #[verifier::rlimit(40)]
    fn turn(&mut self, pl: &Planner, params: &Parameters) -> (res: bool)
        requires
            old(self).base(pl, params),
            old(self).orders_ok(),
            old(self).generated@[old(self).order as int] >= old(self).limits@[old(self).order as int] || old(self).accounts(
                pl,
                params,
                None,
            ),
        ensures
            final(self).base(pl, params),
            final(self).accounts(pl, params, None),
            final(self).generated == old(self).generated,
            final(self).limits == old(self).limits,
            final(self).history == old(self).history,
            final(self).f_limit == old(self).f_limit,
            final(self).load() <= old(self).load(),
            res ==> final(self).orders_ok() && final(self).generated@[final(self).order as int]
                < final(self).limits@[final(self).order as int],
            !res ==> final(self).limit_reached,
            turned(pl, params, old(self).rest()) == if res {
                entered(pl, params, final(self).rest())
            } else {
                final(self).state(Phase::Spent)
            },
    {
        let ghost start = *self;
        proof {
            reveal(turned);
            assert(self.limits@[self.order as int] == limit_of(params, self.order as int));
        }
        let n = self.limits.len();
        let order = self.order;
        let at_limit = self.generated[order] >= self.limits[order];
        if !at_limit && self.generated[order] < self.next_switch {
            return true;
        }
        if at_limit {
            self.limit_reached = true;
            self.orders_left = self.orders_left - 1;
            self.primary.set(order, PlanQueue::new());
            if self.secondary.len() > 0 {
                self.secondary.set(order, PlanQueue::new());
            }
            proof {
                broadcast use vstd::multiset::group_multiset_axioms;

                let o = order as int;
                lemma_total_load(start.primary@, o, self.primary@[o]);
                if start.secondary@.len() > 0 {
                    lemma_total_load(start.secondary@, o, self.secondary@[o]);
                }
                assert forall|k: int| 0 <= k < self.n() implies self.queue_ok(pl, k, #[trigger] self.primary@[k]) by {
                    if k != o {
                        lemma_queue_ok_grows(&start, self, pl, k, start.primary@[k]);
                    }
                }
                assert forall|k: int| 0 <= k < self.secondary@.len() implies self.queue_ok(pl, k, #[trigger] self.secondary@[k]) by {
                    if k != o {
                        lemma_queue_ok_grows(&start, self, pl, k, start.secondary@[k]);
                    }
                }
                assert(self.generated@[o] >= self.limits@[o]);
                lemma_queue_entries(start.primary@, self.primary@, o);
                if start.secondary@.len() > 0 {
                    lemma_queue_entries(start.secondary@, self.secondary@, o);
                }
            }
            if self.orders_left == 0 {
                proof {
                    assert forall|k: int| 0 <= k < n implies #[trigger] self.generated@[k] >= limit_of(params, k) by {
                        assert(self.limits@[k] == limit_of(params, k));
                        if self.generated@[k] < self.limits@[k] {
                            lemma_counts_below(self.limits@, self.generated@, k);
                        }
                    }
                    crate::fdr_run::lemma_first_below(params, self.generated@, order + 1, n as int);
                    crate::fdr_run::lemma_first_below(params, self.generated@, 0, n as int);
                }
                return false;
            }
        }
        let ghost mid = *self;
        proof {
            if !at_limit {
                lemma_counts_below(self.limits@, self.generated@, order as int);
            }
        }
        let ghost found_at = lemma_some_below_in(self);
        // The orders after the current one, then from the first again.
        let mut next: usize = order + 1;
        while next < n && self.generated[next] >= self.limits[next]
            invariant
                n == self.limits@.len(),
                self.generated@.len() == n,
                order < n,
                order + 1 <= next <= n,
                forall|k: int| order < k < next ==> #[trigger] self.generated@[k] >= self.limits@[k],
            decreases n - next,
        {
            next = next + 1;
        }
        let ghost searched = next;
        proof {
            assert forall|k: int| 0 <= k < n implies #[trigger] self.limits@[k] == limit_of(params, k) by {
                assert(start.limits@[k] == limit_of(params, k));
            }
            assert forall|k: int| order + 1 <= k < next implies #[trigger] self.generated@[k] >= limit_of(params, k) by {
                assert(self.generated@[k] >= self.limits@[k]);
            }
            crate::fdr_run::lemma_first_below(params, self.generated@, order + 1, next as int);
        }
        if next >= n {
            self.next_switch = if self.next_switch > usize::MAX / 2 {
                usize::MAX
            } else {
                self.next_switch * 2
            };
            next = 0;
            while self.generated[next] >= self.limits[next]
                invariant
                    n == self.limits@.len(),
                    self.generated@.len() == n,
                    0 <= found_at < n,
                    self.generated@[found_at] < self.limits@[found_at],
                    next <= found_at,
                    forall|k: int| 0 <= k < next ==> #[trigger] self.generated@[k] >= self.limits@[k],
                decreases n - next,
            {
                next = next + 1;
            }
            proof {
                assert forall|k: int| 0 <= k < next implies #[trigger] self.generated@[k] >= limit_of(params, k) by {
                    assert(self.generated@[k] >= self.limits@[k]);
                }
                assert(self.limits@[next as int] == limit_of(params, next as int));
                crate::fdr_run::lemma_first_below(params, self.generated@, 0, next as int);
            }
        }
        self.order = next;
        proof {
            assert forall|k: int| 0 <= k < self.n() implies self.queue_ok(pl, k, #[trigger] self.primary@[k]) by {
                lemma_queue_ok_grows(&mid, self, pl, k, mid.primary@[k]);
            }
            assert forall|k: int| 0 <= k < self.secondary@.len() implies self.queue_ok(pl, k, #[trigger] self.secondary@[k]) by {
                lemma_queue_ok_grows(&mid, self, pl, k, mid.secondary@[k]);
            }
            if self.limit_reached {
                let o = choose|o: int| 0 <= o < mid.n() && #[trigger] mid.generated@[o] >= mid.limits@[o];
                assert(self.generated@[o] >= self.limits@[o]);
            }
            if mid.trace(pl, params, None) {
                assert forall|o: int| 0 <= o < self.n() && #[trigger] self.generated@[o] >= 1 implies self.tree_ok(pl, params, o, None) by {
                    assert(mid.generated@[o] >= 1);
                    assert(mid.tree_ok(pl, params, o, None));
                }
            }
        }
        true
    }

    /// Starts the current order with the empty plan.
    #[verifier::rlimit(40)]
    fn start_order(&mut self, pl: &Planner, params: &Parameters, initial: &PartialPlan)
        requires
            old(self).base(pl, params),
            old(self).accounts(pl, params, None),
            old(self).orders_ok(),
            old(self).generated@[old(self).order as int] == 0,
            old(self).generated@[old(self).order as int] < old(self).limits@[old(self).order as int],
            initial.wf(pl.t()),
            initial@ == PlanView::initial(pl.t()),
            initial.id == 0,
        ensures
            final(self).base(pl, params),
            final(self).accounts(pl, params, Some(initial@)),
            final(self).orders_ok(),
            final(self).current_ok(pl, *initial),
            final(self).left() < old(self).left(),
            final(self).f_limit == old(self).f_limit,
            final(self).state(Phase::Plan(initial@, 0)) == entered(pl, params, old(self).rest()),
    {
        let ghost start = *self;
        let order = self.order;
        let ghost o = order as int;
        let ghost node = Node { order: o, view: initial@ };
        let ghost cap = (usize::MAX / params.flaw_orders@.len() as usize) as nat;
        proof {
            lemma_share(params.flaw_orders@.len() as usize);
            assert forall|k: int| 0 <= k < self.generated@.len() implies #[trigger] self.generated@[k] <= cap by {
                assert(self.limits@[k] == limit_of(params, k));
            }
            lemma_sum_below(self.generated@, cap, o);
        }
        self.rank0 = 0;
        self.generated.set(order, 1);
        self.stats.nodes_generated = self.stats.nodes_generated + 1;
        proof {
            self.history@ = start.history@.push(node);
            self.seen@ = start.seen@.update(o, Set::empty().insert(initial@));
            self.done@ = start.done@.update(o, Set::empty());
            lemma_history_push(pl, params, start.history@, node);
            lemma_sum_update(start.generated@, o, 1);
            lemma_budget(start.limits@, start.generated@, o);
            lemma_below(start.limits@, start.generated@, o, 1);
            assert forall|k: int| 0 <= k < self.n() implies #[trigger] self.generated@[k] == count_nodes(self.history@, k) && (
            self.generated@[k] <= self.limits@[k] || self.generated@[k] == 1) by {
                lemma_count_push(start.history@, node, k);
                assert(start.generated@[k] == count_nodes(start.history@, k));
            }
            assert forall|k: int| 0 <= k < self.n() implies self.queue_ok(pl, k, #[trigger] self.primary@[k]) by {
                lemma_queue_ok_grows(&start, self, pl, k, start.primary@[k]);
            }
            assert forall|k: int| 0 <= k < self.secondary@.len() implies self.queue_ok(pl, k, #[trigger] self.secondary@[k]) by {
                lemma_queue_ok_grows(&start, self, pl, k, start.secondary@[k]);
            }
            lemma_not_started(start.history@, o);
            assert forall|id: int| 0 < id < self.expanded@.len() && #[trigger] self.expanded@[id] implies id < self.history@.len()
                && self.done@[self.history@[id].order].contains(self.history@[id].view) by {
                assert(start.expanded@[id]);
                assert(self.history@[id] == start.history@[id]);
                assert(start.history@[id].order != o);
                assert(is_grown(pl, params, start.history@, id));
            }
            if self.limit_reached {
                let k = choose|k: int| 0 <= k < start.n() && #[trigger] start.generated@[k] >= start.limits@[k];
                assert(self.generated@[k] >= self.limits@[k]);
            }
            if start.trace(pl, params, None) {
                assert forall|k: int| 0 <= k < self.n() && #[trigger] self.generated@[k] >= 1 implies self.tree_ok(
                    pl,
                    params,
                    k,
                    Some(initial@),
                ) by {
                    if k != o {
                        assert(start.generated@[k] >= 1);
                        assert(start.tree_ok(pl, params, k, None));
                        assert(self.seen@[k] == start.seen@[k]);
                        assert(self.done@[k] == start.done@[k]);
                    }
                }
            }
            assert(self.history@[start.history@.len() as int] == node);
        }
    }

    /// Starts another round of iterative deepening with the next bound.
    fn restart(&mut self, pl: &Planner, params: &Parameters, initial: &PartialPlan)
        requires
            old(self).base(pl, params),
            old(self).orders_ok(),
            old(self).accounts(pl, params, None),
            params.search_algorithm == SearchAlgorithm::Ida,
            old(self).next_f_limit < INFINITE_RANK,
            old(self).generated@[old(self).order as int] >= 1,
            exists|j: int|
                0 <= j < old(self).history@.len() && #[trigger] old(self).history@[j] == (Node {
                    order: old(self).order as int,
                    view: initial@,
                }),
            initial.wf(pl.t()),
            initial@ == PlanView::initial(pl.t()),
            initial.id == 0,
        ensures
            final(self).base(pl, params),
            final(self).orders_ok(),
            final(self).accounts(pl, params, Some(initial@)),
            final(self).current_ok(pl, *initial),
            final(self).f_limit == old(self).next_f_limit,
            is_move(pl, params, old(self).state(Phase::Empty), final(self).state(Phase::Plan(initial@, 0))),
    {
        let ghost start = *self;
        let ghost o = self.order as int;
        self.f_limit = self.next_f_limit;
        self.next_f_limit = INFINITE_RANK;
        self.rank0 = 0;
        proof {
            self.seen@ = start.seen@.update(o, Set::empty().insert(initial@));
            self.done@ = start.done@.update(o, Set::empty());
            assert forall|k: int| 0 <= k < self.n() implies self.queue_ok(pl, k, #[trigger] self.primary@[k]) by {
                lemma_queue_ok_grows(&start, self, pl, k, start.primary@[k]);
            }
            assert forall|k: int| 0 <= k < self.secondary@.len() implies self.queue_ok(pl, k, #[trigger] self.secondary@[k]) by {
                lemma_queue_ok_grows(&start, self, pl, k, start.secondary@[k]);
            }
            if self.limit_reached {
                let k = choose|k: int| 0 <= k < start.n() && #[trigger] start.generated@[k] >= start.limits@[k];
                assert(self.generated@[k] >= self.limits@[k]);
            }
        }
    }
}

/// No node of an order that has not been started.
proof fn lemma_not_started(history: Seq<Node>, order: int)
    requires
        count_nodes(history, order) == 0,
    ensures
        forall|i: int| 0 <= i < history.len() ==> (#[trigger] history[i]).order != order,
    decreases history.len(),
{
    if history.len() > 0 {
        lemma_not_started(history.drop_last(), order);
        assert forall|i: int| 0 <= i < history.len() implies (#[trigger] history[i]).order != order by {
            if i < history.len() - 1 {
                assert(history.drop_last()[i] == history[i]);
            }
        }
    }
}

proof fn lemma_counts_below(limits: Seq<usize>, generated: Seq<usize>, i: int)
    requires
        limits.len() == generated.len(),
        0 <= i < limits.len(),
        generated[i] < limits[i],
    ensures
        below(limits, generated) > 0,
    decreases limits.len(),
{
    if i < limits.len() - 1 {
        lemma_counts_below(limits.drop_last(), generated.drop_last(), i);
    }
}

proof fn lemma_some_below_in(s: &Search) -> (i: int)
    requires
        s.limits@.len() == s.generated@.len(),
        below(s.limits@, s.generated@) > 0,
    ensures
        0 <= i < s.limits@.len(),
        s.generated@[i] < s.limits@[i],
{
    lemma_some_below(s.limits@, s.generated@)
}

impl<'a> Planner<'a> {
    /// The state before the search: the empty plan is the first node.
    #[verifier::rlimit(40)]
    fn begin(&self, params: &Parameters, initial: &PartialPlan) -> (s: Search)
        requires
            self.wf(),
            is_valid(self, params),
            params.heuristic.ranking().len() > 0,
            initial.wf(self.t()),
            initial@ == PlanView::initial(self.t()),
            initial.id == 0,
        ensures
            s.base(self, params),
            s.orders_ok(),
            s.accounts(self, params, Some(initial@)),
            s.current_ok(self, *initial),
            s.next_f_limit == INFINITE_RANK,
            s.state(Phase::Plan(initial@, 0)) == first_state(self, params, INFINITE_RANK, 0),
    {
        let n = params.flaw_orders.len();
        let two = uses_two_queues(params.search_algorithm);
        let share = usize::MAX / n;
        let mut primary: Vec<PlanQueue> = Vec::new();
        let mut secondary: Vec<PlanQueue> = Vec::new();
        let mut limits: Vec<usize> = Vec::new();
        let mut generated: Vec<usize> = Vec::new();
        let ghost mut sets: Seq<Set<PlanView>> = Seq::empty();
        let mut i: usize = 0;
        while i < n
            invariant
                n == params.flaw_orders@.len(),
                params.search_limits@.len() >= n,
                share == usize::MAX / n,
                n > 0,
                i <= n,
                primary@.len() == i,
                secondary@.len() == (if two {
                    i as nat
                } else {
                    0
                }),
                limits@.len() == i,
                generated@.len() == i,
                sets.len() == i,
                forall|o: int| 0 <= o < i ==> #[trigger] sets[o] == Set::<PlanView>::empty(),
                forall|o: int| 0 <= o < i ==> #[trigger] limits@[o] == limit_of(params, o),
                forall|o: int| 0 <= o < i ==> #[trigger] generated@[o] == 0,
                forall|o: int|
                    0 <= o < i ==> (#[trigger] primary@[o]).wf() && primary@[o].contents().len() == 0 && primary@[o].contents()
                        == vstd::multiset::Multiset::<Rc<QueuedPlan>>::empty() && primary@[o].entries()
                        == vstd::multiset::Multiset::<Entry>::empty(),
                forall|o: int|
                    0 <= o < secondary@.len() ==> (#[trigger] secondary@[o]).wf() && secondary@[o].contents()
                        == vstd::multiset::Multiset::<Rc<QueuedPlan>>::empty() && secondary@[o].entries()
                        == vstd::multiset::Multiset::<Entry>::empty(),
            decreases n - i,
        {
            primary.push(PlanQueue::new());
            if two {
                secondary.push(PlanQueue::new());
            }
            let limit = params.search_limits[i];
            limits.push(
                if limit <= share {
                    limit
                } else {
                    share
                },
            );
            generated.push(0);
            proof {
                sets = sets.push(Set::empty());
            }
            i = i + 1;
        }
        let ghost zero = generated@;
        generated.set(0, 1);
        let mut orders_left: usize = 0;
        let mut i: usize = 0;
        assert(below(limits@.take(0), generated@.take(0)) == 0);
        while i < n
            invariant
                n == limits@.len(),
                n == generated@.len(),
                i <= n,
                orders_left <= i,
                orders_left == below(limits@.take(i as int), generated@.take(i as int)),
            decreases n - i,
        {
            proof {
                assert(limits@.take(i + 1).drop_last() =~= limits@.take(i as int));
                assert(generated@.take(i + 1).drop_last() =~= generated@.take(i as int));
            }
            if generated[i] < limits[i] {
                orders_left = orders_left + 1;
            }
            i = i + 1;
        }
        proof {
            assert(limits@.take(n as int) =~= limits@);
            assert(generated@.take(n as int) =~= generated@);
        }
        if generated[0] >= limits[0] {
            proof {
                lemma_not_all_below(limits@, generated@, 0);
            }
            orders_left = orders_left + 1;
        }
        let mut stats = SearchStats::new();
        stats.nodes_generated = 1;
        let ghost node = Node { order: 0, view: initial@ };
        let ghost history: Seq<Node> = Seq::empty().push(node);
        let ghost seen: Seq<Set<PlanView>> = sets.update(0, Set::empty().insert(initial@));
        let s = Search {
            primary,
            secondary,
            limits,
            generated,
            expanded: Vec::new(),
            stats,
            order: 0,
            orders_left,
            next_switch: 1_000,
            limit_reached: false,
            best_h: INFINITE_RANK,
            boost: 0,
            pops: 0,
            rank0: 0,
            f_limit: INFINITE_RANK,
            next_f_limit: INFINITE_RANK,
            history: Ghost(history),
            seen: Ghost(seen),
            done: Ghost(sets),
        };
        proof {
            lemma_sum_zero(zero);
            lemma_sum_update(zero, 0, 1);
            assert(s.history@ =~= Seq::<Node>::empty().push(node));
            lemma_history_push(self, params, Seq::empty(), node);
            assert forall|o: int| 0 <= o < s.n() implies #[trigger] s.generated@[o] == count_nodes(s.history@, o) && (s.generated@[o]
                <= s.limits@[o] || s.generated@[o] == 1) by {
                lemma_count_push(Seq::empty(), node, o);
            }
            broadcast use vstd::multiset::group_multiset_axioms;

            assert(s.history@[0] == node);
            assert(s.trace(self, params, Some(initial@)));
            let wanted = first_state(self, params, INFINITE_RANK, 0);
            let found = s.state(Phase::Plan(initial@, 0));
            assert(found.primary =~= wanted.primary);
            assert(found.secondary =~= wanted.secondary);
            assert(found.generated =~= wanted.generated);
            assert(found.expanded =~= wanted.expanded);
        }
        s
    }

    /// Runs the search with the given parameters.
    #[verifier::rlimit(60)]
    pub fn solve(&self, params: &Parameters) -> (res: (Outcome, SearchStats))
        requires
            self.wf(),
            self.t().axioms_converge(),
            is_valid(self, params),
        ensures
            is_run(self, params, res.0, res.1),
            exists|history: Seq<Node>| #[trigger]
                is_search_result(self, params, history, res.0, res.1.nodes_generated as nat),
    {
        let ghost t = self.t();
        let task = self.task();
        proof {
            self.lemma_wf();
        }
        let terms = params.heuristic.terms();
        let initial = PartialPlan::initial(task);
        let mut s = self.begin(params, &initial);
        let is_ida = params.search_algorithm == SearchAlgorithm::Ida;
        if is_ida {
            let ghost before = s;
            let (rank, _) = self.rank_both(&initial, params.weight, terms, &mut s.stats);
            s.f_limit = rank[0];
            proof {
                lemma_same_base(&before, &s, self, params);
                if before.trace(self, params, Some(initial@)) {
                    assert forall|o: int| 0 <= o < s.n() && #[trigger] s.generated@[o] >= 1 implies s.tree_ok(
                        self,
                        params,
                        o,
                        Some(initial@),
                    ) by {
                        assert(before.generated@[o] >= 1);
                        assert(before.tree_ok(self, params, o, Some(initial@)));
                    }
                }
            }
        }
        let initial = Rc::new(initial);
        let mut current: Option<Rc<PartialPlan>> = Some(Rc::clone(&initial));
        let ghost first = s.state(Phase::Plan(initial@, 0));
        proof {
            assert(is_first(self, params, first));
            lemma_stays(self, params, first);
        }
        loop
            invariant_except_break
                s.orders_ok(),
                s.generated@[s.order as int] >= 1,
                match current {
                    Some(plan) => s.current_ok(self, *plan) && s.accounts(self, params, Some(plan@)) && leads(
                        self,
                        params,
                        first,
                        s.state(Phase::Plan(plan@, plan.id)),
                    ),
                    None => s.accounts(self, params, None) && s.primary@[s.order as int].contents().len() == 0 && leads(
                        self,
                        params,
                        first,
                        s.state(Phase::Empty),
                    ),
                },
            invariant
                t == self.t(),
                task@ == t,
                t.wf(),
                t.axioms_converge(),
                self.wf(),
                is_valid(self, params),
                is_ida == (params.search_algorithm == SearchAlgorithm::Ida),
                initial.wf(t),
                initial@ == PlanView::initial(t),
                initial.id == 0,
                s.base(self, params),
                is_first(self, params, first),
            ensures
                (s.limit_reached && leads(self, params, first, s.state(Phase::Spent))) || (leads(self, params, first, s.state(Phase::Empty))
                    && !goes_deeper(params, s.state(Phase::Empty))),
                s.limit_reached || {
                    &&& s.generated@[s.order as int] >= 1
                    &&& s.accounts(self, params, None)
                    &&& s.primary@[s.order as int].contents().len() == 0
                    &&& !s.is_cut(params)
                },
            decreases INFINITE_RANK - s.f_limit, s.left(), s.load(), (current is Some) as int,
        {
            let plan = match &current {
                Some(plan) => Rc::clone(plan),
                None => {
                    if is_ida && s.next_f_limit != INFINITE_RANK {
                        proof {
                            lemma_first_node(self, params, s.history@, s.order as int);
                        }
                        let ghost before = s;
                        s.restart(self, params, &*initial);
                        proof {
                            lemma_leads(self, params, first, before.state(Phase::Empty), s.state(Phase::Plan(initial@, 0)));
                        }
                        current = Some(Rc::clone(&initial));
                        continue;
                    }
                    break;
                },
            };
            proof {
                crate::fdr_plan::lemma_threats(plan@, t, plan.threats@);
            }
            if plan.complete(task) {
                if let Some(operators) = linearize_and_validate(&*plan, task) {
                    proof {
                        let j = choose|j: int|
                            0 <= j < s.history@.len() && #[trigger] s.history@[j] == (Node { order: s.order as int, view: plan@ });
                        assert(s.history@[j].view == plan@);
                        assert(in_history(s.history@, plan@));
                        lemma_counts(self, params, &s);
                    }
                    let res = (Outcome::Solved(Solution { plan: (*plan).clone(), operators }), s.stats);
                    assert(is_end(self, params, s.state(Phase::Plan(plan@, plan.id)), res.0));
                    assert(is_search_result(self, params, s.history@, res.0, res.1.nodes_generated as nat));
                    return res;
                }
                let ghost here = s.state(Phase::Plan(plan@, plan.id));
                proof {
                    assert(plan.links.len() == plan.links@.len());
                    assert(plan.open_conditions.len() == plan.open_conditions@.len());
                }
                s.close(self, params, &*plan);
                proof {
                    lemma_leads(self, params, first, here, sought(params, s.rest()));
                }
                current = s.pop_next(self, params, Ghost(first));
                continue;
            }
            let ghost here = s.state(Phase::Plan(plan@, plan.id));
            assert(!is_complete(self.t(), plan@));
            s.expand(self, params, &*plan);
            let ghost spread = s.rest();
            proof {
                crate::fdr_run::lemma_spread(self, params, here, plan@, plan.id, spread);
                lemma_leads(self, params, first, here, turned(self, params, spread));
            }
            if !s.turn(self, params) {
                break;
            }
            if s.generated[s.order] == 0 {
                s.start_order(self, params, &*initial);
                current = Some(Rc::clone(&initial));
            } else {
                current = s.pop_next(self, params, Ghost(first));
            }
        }
        proof {
            lemma_counts(self, params, &s);
        }
        if s.limit_reached {
            proof {
                let o = choose|o: int| 0 <= o < s.n() && #[trigger] s.generated@[o] >= s.limits@[o];
                assert(s.limits@[o] == limit_of(params, o));
                assert(count_nodes(s.history@, o) >= limit_of(params, o));
            }
            let res = (Outcome::LimitReached, s.stats);
            proof {
                if leads(self, params, first, s.state(Phase::Spent)) {
                    assert(is_end(self, params, s.state(Phase::Spent), res.0));
                } else {
                    assert(is_end(self, params, s.state(Phase::Empty), res.0));
                }
            }
            assert(is_search_result(self, params, s.history@, res.0, res.1.nodes_generated as nat));
            res
        } else {
            proof {
                if is_traced(params) {
                    lemma_exhausted(self, params, &s);
                }
            }
            let res = (Outcome::NoSolution, s.stats);
            assert(is_end(self, params, s.state(Phase::Empty), res.0));
            assert(is_search_result(self, params, s.history@, res.0, res.1.nodes_generated as nat));
            res
        }
    }
}

/// When no plan waits, every known plan is dealt with or leads nowhere.
proof fn lemma_exhausted(pl: &Planner, params: &Parameters, s: &Search)
    requires
        s.base(pl, params),
        s.trace(pl, params, None),
        s.generated@[s.order as int] >= 1,
        s.primary@[s.order as int].contents().len() == 0,
        !s.is_cut(params),
    ensures
        is_exhausted(pl, params, s.order as int),
{
    broadcast use vstd::multiset::group_multiset_axioms;

    let o = s.order as int;
    let seen = s.seen@[o];
    assert(s.tree_ok(pl, params, o, None));
    assert forall|p: PlanView| #[trigger] seen.contains(p) implies is_closed_off(pl, params, o, seen, p) || is_dead(pl, params, p) by {
        if waits(s.primary@[o], p) {
            let item = choose|item: Rc<QueuedPlan>| #[trigger] s.primary@[o].contents().contains(item) && item.plan@ == p;
            assert(s.primary@[o].contents().count(item) > 0);
            assert(s.primary@[o].contents().remove(item).len() + 1 == s.primary@[o].contents().len());
        }
    }
    assert(seen.contains(PlanView::initial(pl.t())));
}

/// The first node of an order is the empty plan.
proof fn lemma_first_node(pl: &Planner, params: &Parameters, history: Seq<Node>, order: int)
    requires
        is_history(pl, params, history),
        count_nodes(history, order) >= 1,
    ensures
        exists|j: int| 0 <= j < history.len() && #[trigger] history[j] == (Node { order, view: PlanView::initial(pl.t()) }),
    decreases history.len(),
{
    let n = history.len();
    let shorter = history.drop_last();
    if count_nodes(shorter, order) >= 1 {
        assert forall|i: int| 0 <= i < shorter.len() implies #[trigger] is_grown(pl, params, shorter, i) by {
            assert(is_grown(pl, params, history, i));
            if history[i].view != PlanView::initial(pl.t()) {
                let j = choose|j: int|
                    0 <= j < i && (#[trigger] history[j]).order == history[i].order && is_child(
                        pl,
                        params,
                        history[i].order,
                        history[j].view,
                        history[i].view,
                    );
                assert(shorter[j] == history[j]);
            }
        }
        lemma_first_node(pl, params, shorter, order);
        let j = choose|j: int| 0 <= j < shorter.len() && #[trigger] shorter[j] == (Node { order, view: PlanView::initial(pl.t()) });
        assert(history[j] == shorter[j]);
    } else {
        lemma_not_started(shorter, order);
        assert(is_grown(pl, params, history, n - 1));
        assert(history[n - 1].order == order);
        if history[n - 1].view != PlanView::initial(pl.t()) {
            let j = choose|j: int|
                0 <= j < n - 1 && (#[trigger] history[j]).order == history[n - 1].order && is_child(
                    pl,
                    params,
                    history[n - 1].order,
                    history[j].view,
                    history[n - 1].view,
                );
            assert(shorter[j].order == order);
        }
        assert(history[n - 1] == (Node { order, view: PlanView::initial(pl.t()) }));
    }
}

proof fn lemma_sum_zero(v: Seq<usize>)
    requires
        forall|k: int| 0 <= k < v.len() ==> #[trigger] v[k] == 0,
    ensures
        sum(v) == 0,
    decreases v.len(),
{
    if v.len() > 0 {
        lemma_sum_zero(v.drop_last());
    }
}

proof fn lemma_not_all_below(limits: Seq<usize>, generated: Seq<usize>, i: int)
    requires
        limits.len() == generated.len(),
        0 <= i < limits.len(),
        generated[i] >= limits[i],
    ensures
        below(limits, generated) < limits.len(),
    decreases limits.len(),
{
    lemma_below_len(limits.drop_last(), generated.drop_last());
    if i < limits.len() - 1 {
        lemma_not_all_below(limits.drop_last(), generated.drop_last(), i);
    }
}

proof fn lemma_below_len(limits: Seq<usize>, generated: Seq<usize>)
    requires
        limits.len() == generated.len(),
    ensures
        below(limits, generated) <= limits.len(),
    decreases limits.len(),
{
    if limits.len() > 0 {
        lemma_below_len(limits.drop_last(), generated.drop_last());
    }
}

/// The counts of the search are those of its history.
proof fn lemma_counts(pl: &Planner, params: &Parameters, s: &Search)
    requires
        s.base(pl, params),
    ensures
        forall|o: int|
            0 <= o < params.flaw_orders@.len() ==> #[trigger] count_nodes(s.history@, o) <= limit_of(params, o) || count_nodes(
                s.history@,
                o,
            ) == 1,
{
    assert forall|o: int| 0 <= o < params.flaw_orders@.len() implies #[trigger] count_nodes(s.history@, o) <= limit_of(params, o)
        || count_nodes(s.history@, o) == 1 by {
        assert(s.generated@[o] == count_nodes(s.history@, o));
        assert(s.limits@[o] == limit_of(params, o));
    }
}

} // verus!
