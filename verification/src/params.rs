//! Planning parameters.
use vstd::prelude::*;

use crate::heuristics::{ucpop_tiers, FlawSelectionOrder, HVal, Heuristic};

verus! {

/// Search algorithm.
#[derive(Debug, Clone, Copy, PartialEq, Eq, Structural)]
pub enum SearchAlgorithm {
    /// A* (the default): rank = g + w·h.
    A,
    /// IDA*.
    Ida,
    /// Hill climbing; it ranks as A* does.
    Hc,
    /// Breadth-first search: rank = (steps, plan_id). No heuristic needed.
    Bfs,
    /// Greedy best-first search: rank = (h, open conditions, newest first).
    Gbfs,
    /// Lazy GBFS: push refinements with the parent's h as a proxy rank; compute
    /// the real h only when a node is popped from the open list. Avoids h
    /// evaluation for nodes that are never expanded.
    LazyGbfs,
    /// Lazy GBFS with a boosted dual queue: a primary queue (h-ordered) and a
    /// secondary queue (FIFO). Both use lazy evaluation. The primary queue gets
    /// extra budget whenever a node improves the incumbent best-h (boost).
    LazyGbfsDual,
    /// LAMA-style queue alternation: every generated child is ranked eagerly
    /// under both the A* ordering (g + w·h) and the GBFS ordering (h) and
    /// pushed into two queues; expansions strictly alternate (1:1) between the
    /// A*-ordered and h-ordered queues.
    Alt,
}

/// Action cost model.
#[derive(Debug, Clone, Copy, PartialEq, Eq, Structural)]
pub enum ActionCost {
    /// The declared cost of the task's actions (the default).
    Task,
    /// Every action costs one.
    Unit,
    /// Durative cost (deferred).
    Duration,
    /// Relative cost (deferred).
    Relative,
}

impl ActionCost {
    pub open spec fn cost_of(self, declared: usize) -> usize {
        if self == ActionCost::Task {
            declared
        } else {
            1
        }
    }

    /// The cost of an action with the given declared cost.
    pub fn resolve(self, declared: usize) -> (res: usize)
        ensures
            res == self.cost_of(declared),
    {
        if self == ActionCost::Task {
            declared
        } else {
            1
        }
    }
}

/// Weights are given in billionths: this is the weight one.
pub const WEIGHT_ONE: i128 = 1_000_000_000;

/// Planning parameters.
#[derive(Debug)]
pub struct Parameters {
    pub search_algorithm: SearchAlgorithm,
    pub heuristic: Heuristic,
    pub action_cost: ActionCost,
    /// The weight of the heuristic term, in billionths.
    pub weight: i128,
    /// Flaw-selection orders, tried in round-robin.
    pub flaw_orders: Vec<FlawSelectionOrder>,
    /// Per-flaw-order generated-plan limits.
    pub search_limits: Vec<usize>,
    /// Whether to plan with fully ground actions.
    pub ground_actions: bool,
}

impl Default for Parameters {
    /// A* over lifted actions with the `UCPOP` heuristic, the `UCPOP` flaw
    /// order, the task's action costs and weight one, without a limit.
    fn default() -> (res: Self)
        ensures
            res.search_algorithm == SearchAlgorithm::A,
            res.heuristic.ranking() == seq![HVal::Ucpop],
            res.action_cost == ActionCost::Task,
            res.weight == WEIGHT_ONE,
            res.flaw_orders@.len() == 1,
            res.flaw_orders@[0].tiers() == ucpop_tiers(),
            res.search_limits@ == seq![usize::MAX],
            !res.ground_actions,
    {
        let mut flaw_orders: Vec<FlawSelectionOrder> = Vec::new();
        flaw_orders.push(FlawSelectionOrder::by_ucpop());
        let mut search_limits: Vec<usize> = Vec::new();
        search_limits.push(usize::MAX);
        Parameters {
            search_algorithm: SearchAlgorithm::A,
            heuristic: Heuristic::of_term(HVal::Ucpop),
            action_cost: ActionCost::Task,
            weight: WEIGHT_ONE,
            flaw_orders,
            search_limits,
            ground_actions: false,
        }
    }
}

} // verus!
