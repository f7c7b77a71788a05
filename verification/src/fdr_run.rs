//! What a finite-domain search does, step by step.
//!
//! A search is a machine: it looks at a plan, offers the refinements of its selected
//! flaw to the queues of the current flaw order, turns to another order when the
//! current one has reached its limit or has had its turn, and takes the next plan out
//! of a queue. Which plan comes next is fixed by the ranks, up to equal ranks.
use vstd::multiset::Multiset;
use vstd::prelude::*;

use crate::fdr_estimates::{open_cost, Planner, UNREACHABLE};
use crate::fdr_execution::{executes, linearization};
use crate::fdr_plan::PlanView;
use crate::fdr_rank::{are_ranks, SearchStats, INFINITE_RANK};
use crate::fdr_refine::{flaw_children, selects, SelectedFlaw};
use crate::fdr_search::{has_two_queues, is_complete, is_lazy_search, limit_of, tiers_of, Outcome};
use crate::heuristics::any_reads_graph;
use crate::params::{Parameters, SearchAlgorithm};
use crate::queue::{is_least, Entry};

verus! {

/// What the search counted; not the time.
pub struct Tally {
    pub nodes_generated: usize,
    pub nodes_visited: usize,
    pub h_evals: usize,
    pub pruned: usize,
    pub max_steps: usize,
    pub max_open_conditions: usize,
    pub max_threats: usize,
}

pub open spec fn tally_of(s: SearchStats) -> Tally {
    Tally {
        nodes_generated: s.nodes_generated,
        nodes_visited: s.nodes_visited,
        h_evals: s.h_evals,
        pruned: s.pruned,
        max_steps: s.max_steps,
        max_open_conditions: s.max_open_conditions,
        max_threats: s.max_threats,
    }
}

/// Where a search stands.
pub enum Phase {
    /// It looks at the plan with this number.
    Plan(PlanView, usize),
    /// It looks for the next plan: under queue alternation, in the second queue first
    /// where the flag is set.
    Next(bool),
    /// No plan waits under the current order.
    Empty,
    /// Every order has reached its limit.
    Spent,
}

/// The state of a search.
#[verifier::ext_equal]
pub struct State {
    /// The queue of each flaw order.
    pub primary: Seq<Multiset<Entry>>,
    /// The second queue of each order, where the algorithm has them.
    pub secondary: Seq<Multiset<Entry>>,
    /// How many plans were generated under each order.
    pub generated: Seq<usize>,
    /// The numbers of the expanded plans, kept with two queues.
    pub expanded: Set<usize>,
    pub tally: Tally,
    pub order: usize,
    pub next_switch: usize,
    pub limit_reached: bool,
    pub best_h: i128,
    pub boost: usize,
    pub pops: usize,
    pub rank0: i128,
    pub f_limit: i128,
    pub next_f_limit: i128,
    pub phase: Phase,
}

pub open spec fn one_more(n: usize) -> usize {
    if n < usize::MAX {
        (n + 1) as usize
    } else {
        n
    }
}

pub open spec fn larger(a: usize, b: nat) -> usize {
    if b > a {
        b as usize
    } else {
        a
    }
}

// ---------------------------------------------------------------------------
// Generating plans
// ---------------------------------------------------------------------------

/// The ranks of a child in the queues.
#[verifier::ext_equal]
pub struct Ranking {
    pub rank: Seq<i128>,
    /// The rank in the second queue of queue alternation.
    pub second: Seq<i128>,
    pub is_lazy: bool,
}

/// Whether children are ranked when they are generated.
pub open spec fn ranks_children(algorithm: SearchAlgorithm) -> bool {
    algorithm != SearchAlgorithm::Bfs && !is_lazy_search(algorithm)
}

/// Whether a child is ranked so: by steps and number in breadth-first search; by a
/// stand-in in lazy search, unless the additive estimate prunes it; by the greedy rank
/// in greedy search; and by the total rank otherwise.
#[verifier::opaque]
pub open spec fn is_ranking(pl: &Planner, params: &Parameters, rank0: i128, child: PlanView, id: usize, r: Option<Ranking>) -> bool {
    let algorithm = params.search_algorithm;
    let terms = params.heuristic.ranking();
    if algorithm == SearchAlgorithm::Bfs {
        r == Some(Ranking { rank: seq![child.steps.len() as i128, id as i128], second: seq![], is_lazy: false })
    } else if is_lazy_search(algorithm) {
        if any_reads_graph(terms) && open_cost(pl.t(), pl.model(), child, false) == UNREACHABLE {
            r is None
        } else {
            r == Some(Ranking { rank: seq![rank0, child.opens.len() as i128, (0 - id) as i128], second: seq![], is_lazy: true })
        }
    } else {
        r matches Some(v) && !v.is_lazy && is_computed(pl, params, child, id, v.rank, v.second)
    }
}

/// Whether the ranks are those that the heuristic computes for the algorithm.
pub open spec fn is_computed(pl: &Planner, params: &Parameters, child: PlanView, id: usize, rank: Seq<i128>, second: Seq<i128>) -> bool {
    let terms = params.heuristic.ranking();
    if params.search_algorithm == SearchAlgorithm::Gbfs {
        second.len() == 0 && exists|total: Seq<i128>| #[trigger] are_ranks(pl, params.weight, terms, child, id, total, rank)
    } else if params.search_algorithm == SearchAlgorithm::Alt {
        are_ranks(pl, params.weight, terms, child, id, rank, second)
    } else {
        second.len() == 0 && exists|greedy: Seq<i128>| #[trigger] are_ranks(pl, params.weight, terms, child, id, rank, greedy)
    }
}

/// The search after one child: it is counted and, unless its rank is infinite, the
/// order is at its limit or the child is beyond the bound of iterative deepening,
/// queued under the next number.
#[verifier::opaque]
pub open spec fn offered(params: &Parameters, st: State, child: PlanView, r: Option<Ranking>) -> State {
    let algorithm = params.search_algorithm;
    let o = st.order as int;
    let counted = State {
        tally: Tally {
            h_evals: if ranks_children(algorithm) {
                one_more(st.tally.h_evals)
            } else {
                st.tally.h_evals
            },
            pruned: if r is None {
                one_more(st.tally.pruned)
            } else {
                st.tally.pruned
            },
            ..st.tally
        },
        ..st
    };
    match r {
        None => counted,
        Some(v) => if v.rank[0] == INFINITE_RANK || st.generated[o] >= limit_of(params, o) {
            counted
        } else if algorithm == SearchAlgorithm::Ida && v.rank[0] > st.f_limit {
            State {
                next_f_limit: if v.rank[0] < st.next_f_limit {
                    v.rank[0]
                } else {
                    st.next_f_limit
                },
                ..counted
            }
        } else {
            let id = st.tally.nodes_generated;
            State {
                primary: st.primary.update(o, st.primary[o].insert(Entry { plan: child, id, rank: v.rank, is_lazy: v.is_lazy })),
                secondary: if algorithm == SearchAlgorithm::LazyGbfsDual {
                    st.secondary.update(o, st.secondary[o].insert(Entry { plan: child, id, rank: seq![id as i128], is_lazy: v.is_lazy }))
                } else if algorithm == SearchAlgorithm::Alt {
                    st.secondary.update(o, st.secondary[o].insert(Entry { plan: child, id, rank: v.second, is_lazy: false }))
                } else {
                    st.secondary
                },
                generated: st.generated.update(o, (st.generated[o] + 1) as usize),
                tally: Tally { nodes_generated: (id + 1) as usize, ..counted.tally },
                ..counted
            }
        },
    }
}

/// The search after the first `n` children.
pub open spec fn offered_all(params: &Parameters, st: State, children: Seq<PlanView>, ranks: Seq<Option<Ranking>>, n: nat) -> State
    decreases n,
{
    if n == 0 {
        st
    } else {
        offered(params, offered_all(params, st, children, ranks, (n - 1) as nat), children[n - 1], ranks[n - 1])
    }
}

/// Whether the first `n` children are ranked so, each under the next number.
pub open spec fn are_rankings(
    pl: &Planner,
    params: &Parameters,
    st: State,
    children: Seq<PlanView>,
    ranks: Seq<Option<Ranking>>,
    n: nat,
) -> bool {
    forall|k: int|
        0 <= k < n ==> is_ranking(
            pl,
            params,
            st.rank0,
            children[k],
            offered_all(params, st, children, ranks, k as nat).tally.nodes_generated,
            #[trigger] ranks[k],
        )
}

/// The plan is visited: it is counted, and a dual search gets a boost where the plan
/// is better than all before.
#[verifier::opaque]
pub open spec fn visited(pl: &Planner, params: &Parameters, st: State, p: PlanView) -> State {
    let tally = Tally {
        nodes_visited: one_more(st.tally.nodes_visited),
        max_steps: larger(st.tally.max_steps, p.steps.len()),
        max_open_conditions: larger(st.tally.max_open_conditions, p.opens.len()),
        max_threats: larger(st.tally.max_threats, p.threats(pl.t()).len()),
        ..st.tally
    };
    if params.search_algorithm == SearchAlgorithm::LazyGbfsDual {
        let is_better = st.rank0 < st.best_h;
        let raised = if !is_better {
            st.boost
        } else if st.boost > usize::MAX - 10 {
            usize::MAX
        } else {
            (st.boost + 10) as usize
        };
        State {
            tally,
            best_h: if is_better {
                st.rank0
            } else {
                st.best_h
            },
            boost: if raised > 0 {
                (raised - 1) as usize
            } else {
                0
            },
            ..st
        }
    } else {
        State { tally, ..st }
    }
}

/// The plan's number is noted, where there are two queues.
pub open spec fn marked(params: &Parameters, st: State, id: usize) -> State {
    if has_two_queues(params.search_algorithm) {
        State { expanded: st.expanded.insert(id), ..st }
    } else {
        st
    }
}

/// Whether a plan is expanded so: every refinement of the flaw that the current order
/// selects is offered, in order.
pub open spec fn is_spread(pl: &Planner, params: &Parameters, a: State, p: PlanView, id: usize, b: State) -> bool {
    exists|flaw: SelectedFlaw, ranks: Seq<Option<Ranking>>| #[trigger]
        spreads_by(pl, params, a, p, id, flaw, ranks, b)
}

pub open spec fn spreads_by(
    pl: &Planner,
    params: &Parameters,
    a: State,
    p: PlanView,
    id: usize,
    flaw: SelectedFlaw,
    ranks: Seq<Option<Ranking>>,
    b: State,
) -> bool {
    let children = flaw_children(pl.t(), pl.model(), p, flaw);
    let st = visited(pl, params, a, p);
    &&& selects(pl.t(), pl.model(), p, tiers_of(params, a.order as int), flaw)
    &&& ranks.len() == children.len()
    &&& are_rankings(pl, params, st, children, ranks, children.len())
    &&& b == marked(params, offered_all(params, st, children, ranks, children.len()), id)
}

// ---------------------------------------------------------------------------
// Turning to another order
// ---------------------------------------------------------------------------

/// The first order from `from` on that is below its limit.
pub open spec fn first_below(params: &Parameters, generated: Seq<usize>, from: int) -> Option<int>
    decreases generated.len() - from,
{
    if from >= generated.len() {
        None
    } else if generated[from] < limit_of(params, from) {
        Some(from)
    } else {
        first_below(params, generated, from + 1)
    }
}

pub open spec fn doubled(n: usize) -> usize {
    if n > usize::MAX / 2 {
        usize::MAX
    } else {
        (2 * n) as usize
    }
}

/// The search after a turn. An order at its limit loses its queues. Where the current
/// order is at its limit or has had its turn, the next order below its limit follows,
/// and behind the last one the first.
#[verifier::opaque]
pub open spec fn turned(pl: &Planner, params: &Parameters, st: State) -> State {
    let o = st.order as int;
    let at_limit = st.generated[o] >= limit_of(params, o);
    if !at_limit && st.generated[o] < st.next_switch {
        entered(pl, params, st)
    } else {
        let cleared = if at_limit {
            State {
                limit_reached: true,
                primary: st.primary.update(o, Multiset::empty()),
                secondary: if has_two_queues(params.search_algorithm) {
                    st.secondary.update(o, Multiset::empty())
                } else {
                    st.secondary
                },
                ..st
            }
        } else {
            st
        };
        match first_below(params, st.generated, o + 1) {
            Some(k) => entered(pl, params, State { order: k as usize, ..cleared }),
            None => match first_below(params, st.generated, 0) {
                Some(k) => entered(pl, params, State { order: k as usize, next_switch: doubled(st.next_switch), ..cleared }),
                None => State { phase: Phase::Spent, ..cleared },
            },
        }
    }
}

/// The current order goes on: with the empty plan if it has not been started, else
/// with the next plan.
pub open spec fn entered(pl: &Planner, params: &Parameters, st: State) -> State {
    let o = st.order as int;
    if st.generated[o] == 0 {
        State {
            rank0: 0,
            generated: st.generated.update(o, 1),
            tally: Tally { nodes_generated: (st.tally.nodes_generated + 1) as usize, ..st.tally },
            phase: Phase::Plan(PlanView::initial(pl.t()), 0),
            ..st
        }
    } else {
        sought(params, st)
    }
}

// ---------------------------------------------------------------------------
// Taking plans
// ---------------------------------------------------------------------------

/// The next plan is looked for; queue alternation takes every other one from the
/// second queue.
pub open spec fn sought(params: &Parameters, st: State) -> State {
    if params.search_algorithm == SearchAlgorithm::Alt {
        let pops = one_more(st.pops);
        State { pops, phase: Phase::Next(pops % 2 == 0), ..st }
    } else {
        State { phase: Phase::Next(false), ..st }
    }
}

/// A dual search without a boost takes every third plan from the second queue.
pub open spec fn is_dual_turn(params: &Parameters, st: State) -> bool {
    params.search_algorithm == SearchAlgorithm::LazyGbfsDual && st.boost == 0
}

/// Which queue of the current order a plan comes from: the second one where that has
/// its turn, unless it is empty; and queue alternation falls back on it. `None` where
/// there is no plan.
pub open spec fn source(params: &Parameters, st: State, second: bool) -> Option<bool> {
    let o = st.order as int;
    if second && st.secondary[o].len() > 0 {
        Some(true)
    } else if st.primary[o].len() > 0 {
        Some(false)
    } else if params.search_algorithm == SearchAlgorithm::Alt && st.secondary[o].len() > 0 {
        Some(true)
    } else {
        None
    }
}

/// A queue of the current order.
pub open spec fn queue_at(st: State, second: bool) -> Multiset<Entry> {
    if second {
        st.secondary[st.order as int]
    } else {
        st.primary[st.order as int]
    }
}

/// The search without an entry of a queue.
pub open spec fn without(st: State, second: bool, e: Entry) -> State {
    let o = st.order as int;
    if second {
        State { secondary: st.secondary.update(o, st.secondary[o].remove(e)), ..st }
    } else {
        State { primary: st.primary.update(o, st.primary[o].remove(e)), ..st }
    }
}

/// Whether an entry that came up is dealt with so: one whose plan was expanded is
/// passed over; one with a stand-in rank is ranked and goes back to the queue, unless
/// the rank is infinite; any other is looked at.
pub open spec fn is_handled(pl: &Planner, params: &Parameters, st: State, alternate: bool, e: Entry, b: State) -> bool {
    if has_two_queues(params.search_algorithm) && st.expanded.contains(e.id) {
        b == (State { phase: Phase::Next(alternate), ..st })
    } else if !is_lazy_search(params.search_algorithm) || !e.is_lazy {
        b == (State { rank0: e.rank[0], phase: Phase::Plan(e.plan, e.id), ..st })
    } else {
        exists|greedy: Seq<i128>| #[trigger]
            is_greedy_rank(pl, params, e.plan, e.id, greedy) && b == reranked(st, alternate, e, greedy)
    }
}

pub open spec fn is_greedy_rank(pl: &Planner, params: &Parameters, p: PlanView, id: usize, greedy: Seq<i128>) -> bool {
    exists|total: Seq<i128>| #[trigger] are_ranks(pl, params.weight, params.heuristic.ranking(), p, id, total, greedy)
}

pub open spec fn reranked(st: State, alternate: bool, e: Entry, greedy: Seq<i128>) -> State {
    let o = st.order as int;
    let counted = State {
        tally: Tally { h_evals: one_more(st.tally.h_evals), ..st.tally },
        phase: Phase::Next(alternate),
        ..st
    };
    if greedy[0] != INFINITE_RANK {
        State {
            primary: st.primary.update(o, st.primary[o].insert(Entry { rank: greedy, is_lazy: false, ..e })),
            ..counted
        }
    } else {
        counted
    }
}

/// Whether one look into the queues leads from one state to another: the entry that
/// comes up is one that no other of its queue comes before.
#[verifier::opaque]
pub open spec fn is_taken(pl: &Planner, params: &Parameters, a: State, alternate: bool, b: State) -> bool {
    let dual = is_dual_turn(params, a);
    let counted = State {
        pops: if dual {
            one_more(a.pops)
        } else {
            a.pops
        },
        ..a
    };
    let second = if dual {
        counted.pops % 3 == 0
    } else {
        alternate
    };
    match source(params, a, second) {
        None => b == (State { rank0: 0, phase: Phase::Empty, ..counted }),
        Some(from) => takes_from(pl, params, counted, queue_at(a, from), from, alternate, b),
    }
}

/// Whether an entry of a queue that no other of it comes before is taken out and
/// handled.
pub open spec fn takes_from(pl: &Planner, params: &Parameters, a: State, queue: Multiset<Entry>, from: bool, alternate: bool, b: State) -> bool {
    exists|e: Entry| #[trigger] is_least(queue, e) && is_handled(pl, params, without(a, from, e), alternate, e, b)
}

// ---------------------------------------------------------------------------
// The search
// ---------------------------------------------------------------------------

/// Iterative deepening goes on: a plan was beyond the bound.
pub open spec fn goes_deeper(params: &Parameters, st: State) -> bool {
    params.search_algorithm == SearchAlgorithm::Ida && st.next_f_limit != INFINITE_RANK
}

/// The state between two phases.
pub open spec fn at_rest(st: State) -> State {
    State { phase: Phase::Empty, ..st }
}

/// Whether expanding a plan and turning leads from one state to another.
pub open spec fn spreads_to(pl: &Planner, params: &Parameters, a: State, p: PlanView, id: usize, b: State) -> bool {
    exists|mid: State| #[trigger] is_spread(pl, params, a, p, id, mid) && b == turned(pl, params, mid)
}

/// One step of a search.
pub open spec fn is_move(pl: &Planner, params: &Parameters, a: State, b: State) -> bool {
    match a.phase {
        Phase::Plan(p, id) => if is_complete(pl.t(), p) {
            !executes(pl.t(), linearization(p)) && b == sought(params, a)
        } else {
            spreads_to(pl, params, at_rest(a), p, id, b)
        },
        Phase::Next(alternate) => is_taken(pl, params, a, alternate, b),
        Phase::Empty => goes_deeper(params, a) && b == (State {
            f_limit: a.next_f_limit,
            next_f_limit: INFINITE_RANK,
            rank0: 0,
            phase: Phase::Plan(PlanView::initial(pl.t()), 0),
            ..a
        }),
        Phase::Spent => false,
    }
}

/// The state with which a search begins: it looks at the empty plan, the first plan of
/// the first order.
pub open spec fn first_state(pl: &Planner, params: &Parameters, f_limit: i128, h_evals: usize) -> State {
    let n = params.flaw_orders@.len();
    let none = Seq::new(n, |o: int| Multiset::<Entry>::empty());
    State {
        primary: none,
        secondary: if has_two_queues(params.search_algorithm) {
            none
        } else {
            Seq::empty()
        },
        generated: Seq::new(n, |o: int| 0usize).update(0, 1),
        expanded: Set::empty(),
        tally: Tally {
            nodes_generated: 1,
            nodes_visited: 0,
            h_evals,
            pruned: 0,
            max_steps: 0,
            max_open_conditions: 0,
            max_threats: 0,
        },
        order: 0,
        next_switch: 1_000,
        limit_reached: false,
        best_h: INFINITE_RANK,
        boost: 0,
        pops: 0,
        rank0: 0,
        f_limit,
        next_f_limit: INFINITE_RANK,
        phase: Phase::Plan(PlanView::initial(pl.t()), 0),
    }
}

/// Whether a search begins so. Iterative deepening begins with the total rank of the
/// empty plan as bound.
pub open spec fn is_first(pl: &Planner, params: &Parameters, st: State) -> bool {
    if params.search_algorithm == SearchAlgorithm::Ida {
        exists|total: Seq<i128>, greedy: Seq<i128>| #[trigger]
            are_ranks(pl, params.weight, params.heuristic.ranking(), PlanView::initial(pl.t()), 0, total, greedy) && st == first_state(
                pl,
                params,
                total[0],
                1,
            )
    } else {
        st == first_state(pl, params, INFINITE_RANK, 0)
    }
}

/// Whether a search ends so: with a complete plan whose linearization executes; or
/// with no plan left under the current order, or no order left.
pub open spec fn is_end(pl: &Planner, params: &Parameters, st: State, outcome: Outcome) -> bool {
    let is_over = st.phase is Empty && !goes_deeper(params, st);
    match outcome {
        Outcome::Solved(solution) => {
            &&& st.phase matches Phase::Plan(p, _) && solution.plan@ == p
            &&& is_complete(pl.t(), solution.plan@)
            &&& solution.operators@ == linearization(solution.plan@)
            &&& executes(pl.t(), solution.operators@)
        },
        Outcome::LimitReached => st.phase is Spent || (is_over && st.limit_reached),
        Outcome::NoSolution => is_over && !st.limit_reached,
    }
}

/// Whether the states follow one another.
pub open spec fn is_path(pl: &Planner, params: &Parameters, path: Seq<State>) -> bool {
    path.len() > 0 && forall|i: int| 0 <= i < path.len() - 1 ==> #[trigger] follows(pl, params, path, i)
}

pub open spec fn follows(pl: &Planner, params: &Parameters, path: Seq<State>, i: int) -> bool {
    is_move(pl, params, path[i], path[i + 1])
}

/// Whether a search leads from one state to another.
pub open spec fn leads(pl: &Planner, params: &Parameters, a: State, b: State) -> bool {
    exists|path: Seq<State>| #[trigger] is_path(pl, params, path) && path[0] == a && path.last() == b
}

/// Whether a search may return so: some run of it ends with the outcome, having
/// counted what the statistics say.
pub open spec fn is_run(pl: &Planner, params: &Parameters, outcome: Outcome, stats: SearchStats) -> bool {
    exists|a: State, b: State| #[trigger]
        leads(pl, params, a, b) && is_first(pl, params, a) && is_end(pl, params, b, outcome) && b.tally == tally_of(stats)
}

/// Expanding a plan and turning is a step.
pub proof fn lemma_spread(pl: &Planner, params: &Parameters, a: State, p: PlanView, id: usize, mid: State)
    requires
        a.phase == Phase::Plan(p, id),
        !is_complete(pl.t(), p),
        is_spread(pl, params, at_rest(a), p, id, mid),
    ensures
        is_move(pl, params, a, turned(pl, params, mid)),
{
    assert(spreads_to(pl, params, at_rest(a), p, id, turned(pl, params, mid)));
}

/// A look into the queues is a step.
pub proof fn lemma_taken(pl: &Planner, params: &Parameters, a: State, alternate: bool, second: bool, from: bool, e: Entry, b: State)
    requires
        a.phase == Phase::Next(alternate),
        second == if is_dual_turn(params, a) {
            one_more(a.pops) % 3 == 0
        } else {
            alternate
        },
        source(params, a, second) == Some(from),
        is_least(queue_at(a, from), e),
        is_handled(
            pl,
            params,
            without(
                State {
                    pops: if is_dual_turn(params, a) {
                        one_more(a.pops)
                    } else {
                        a.pops
                    },
                    ..a
                },
                from,
                e,
            ),
            alternate,
            e,
            b,
        ),
    ensures
        is_move(pl, params, a, b),
{
    reveal(is_taken);
}

/// The first order below its limit.
pub proof fn lemma_first_below(params: &Parameters, generated: Seq<usize>, from: int, k: int)
    requires
        0 <= from <= k <= generated.len(),
        forall|j: int| from <= j < k ==> #[trigger] generated[j] >= limit_of(params, j),
        k < generated.len() ==> generated[k] < limit_of(params, k),
    ensures
        first_below(params, generated, from) == if k < generated.len() {
            Some(k)
        } else {
            None
        },
    decreases k - from,
{
    if from < k {
        assert(generated[from] >= limit_of(params, from));
        lemma_first_below(params, generated, from + 1, k);
    }
}

pub proof fn lemma_stays(pl: &Planner, params: &Parameters, a: State)
    ensures
        leads(pl, params, a, a),
{
    let path = seq![a];
    assert(is_path(pl, params, path));
}

pub proof fn lemma_leads(pl: &Planner, params: &Parameters, a: State, b: State, c: State)
    requires
        leads(pl, params, a, b),
        is_move(pl, params, b, c),
    ensures
        leads(pl, params, a, c),
{
    let path = choose|path: Seq<State>| #[trigger] is_path(pl, params, path) && path[0] == a && path.last() == b;
    let more = path.push(c);
    assert forall|i: int| 0 <= i < more.len() - 1 implies #[trigger] follows(pl, params, more, i) by {
        if i < path.len() - 1 {
            assert(follows(pl, params, path, i));
        }
    }
    assert(is_path(pl, params, more));
}

proof fn lemma_offered_visits(params: &Parameters, st: State, children: Seq<PlanView>, ranks: Seq<Option<Ranking>>, n: nat)
    ensures
        offered_all(params, st, children, ranks, n).tally.nodes_visited == st.tally.nodes_visited,
    decreases n,
{
    if n > 0 {
        lemma_offered_visits(params, st, children, ranks, (n - 1) as nat);
        reveal(offered);
    }
}

/// Expanding a plan visits it.
proof fn lemma_spread_visits(pl: &Planner, params: &Parameters, a: State, p: PlanView, id: usize, b: State)
    requires
        is_spread(pl, params, a, p, id, b),
    ensures
        b.tally.nodes_visited == one_more(a.tally.nodes_visited),
{
    let (flaw, ranks) = choose|flaw: SelectedFlaw, ranks: Seq<Option<Ranking>>| #[trigger]
        spreads_by(pl, params, a, p, id, flaw, ranks, b);
    let children = flaw_children(pl.t(), pl.model(), p, flaw);
    lemma_offered_visits(params, visited(pl, params, a, p), children, ranks, children.len());
    reveal(visited);
}

/// No step takes a visit back, and expanding a plan is one.
proof fn lemma_visits(pl: &Planner, params: &Parameters, a: State, b: State)
    requires
        is_move(pl, params, a, b),
    ensures
        b.tally.nodes_visited >= a.tally.nodes_visited,
        a.phase matches Phase::Plan(p, _) && !is_complete(pl.t(), p) ==> b.tally.nodes_visited > 0,
{
    match a.phase {
        Phase::Plan(p, id) => {
            if !is_complete(pl.t(), p) {
                let mid = choose|mid: State| #[trigger] is_spread(pl, params, at_rest(a), p, id, mid) && b == turned(pl, params, mid);
                lemma_spread_visits(pl, params, at_rest(a), p, id, mid);
                reveal(turned);
            }
        },
        Phase::Next(_) => {
            reveal(is_taken);
        },
        _ => {},
    }
}

proof fn lemma_path_visits(pl: &Planner, params: &Parameters, path: Seq<State>, i: int)
    requires
        is_path(pl, params, path),
        1 <= i < path.len(),
    ensures
        path[i].tally.nodes_visited >= path[1].tally.nodes_visited,
    decreases i,
{
    if i > 1 {
        lemma_path_visits(pl, params, path, i - 1);
        assert(follows(pl, params, path, i - 1));
        lemma_visits(pl, params, path[i - 1], path[i]);
    }
}

/// A search for a task that the empty plan does not solve visits plans.
pub proof fn a_run_visits_plans(pl: &Planner, params: &Parameters, outcome: Outcome, stats: SearchStats)
    requires
        is_run(pl, params, outcome, stats),
        !is_complete(pl.t(), PlanView::initial(pl.t())),
    ensures
        tally_of(stats).nodes_visited > 0,
{
    let (a, b) = choose|a: State, b: State| #[trigger]
        leads(pl, params, a, b) && is_first(pl, params, a) && is_end(pl, params, b, outcome) && b.tally == tally_of(stats);
    let path = choose|path: Seq<State>| #[trigger] is_path(pl, params, path) && path[0] == a && path.last() == b;
    assert(path.len() > 1);
    assert(follows(pl, params, path, 0));
    lemma_visits(pl, params, path[0], path[1]);
    lemma_path_visits(pl, params, path, path.len() - 1);
}

} // verus!
