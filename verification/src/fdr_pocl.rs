//! Ground POCL search directly over a translated SAS+ task.
//!
//! Conditions and causal links protect [`Fact`](crate::fdr::Fact) equalities,
//! while effects are finite-domain assignments. Consequently, assigning *any
//! other value* to the same variable is a causal threat, even when there is no
//! explicit delete fact.
use vstd::prelude::*;

use crate::external::FdError;
use crate::fdr::{count_facts, ParseError, Task, TaskView};
use crate::heuristics::{ucpop_tiers, HVal};
use crate::params::{ActionCost, Parameters, SearchAlgorithm, WEIGHT_ONE};

pub use crate::fdr_estimates::{Achiever, AddEstimate, Planner};
pub use crate::fdr_execution::{is_ordered_before, linearize_and_validate};
pub use crate::fdr_plan::{effect_clobbers, CausalLink, OpenCondition, PartialPlan, Step, Threat};
pub use crate::fdr_rank::SearchStats;
pub use crate::fdr_refine::{choose_candidate, FlawCandidate, SelectedFlaw};
pub use crate::fdr_search::{Outcome, Solution};

use crate::fdr_rank::{term_supported, terms_supported};
use crate::fdr_run::is_run;
use crate::fdr_search::{is_search_result, is_valid, limit_of, Node};

verus! {

/// Why a search was not run.
#[derive(Debug)]
pub enum Error {
    FastDownward(FdError),
    Parse(ParseError),
    Unsupported(String),
}

impl Error {
    /// What the error says.
    pub open spec fn message(&self) -> Seq<char> {
        match self {
            Error::FastDownward(e) => e.message(),
            Error::Parse(e) => e.message_text(),
            Error::Unsupported(what) => "unsupported FDR POCL feature: "@ + what@,
        }
    }

    pub fn to_text(&self) -> (res: String)
        ensures
            res@ == self.message(),
    {
        match self {
            Error::FastDownward(e) => e.to_text(),
            Error::Parse(e) => e.to_text(),
            Error::Unsupported(what) => {
                let mut res = String::from_str("unsupported FDR POCL feature: ");
                res.append(what.as_str());
                res
            },
        }
    }
}

/// The operator names in parentheses, one to a line, from the first `n`.
pub open spec fn plan_text(t: TaskView, operators: Seq<usize>, n: nat) -> Seq<char>
    decreases n,
{
    if n == 0 {
        Seq::empty()
    } else {
        let before = plan_text(t, operators, (n - 1) as nat);
        let name = "("@ + t.operators[operators[n - 1] as int].name + ")"@;
        if n == 1 {
            name
        } else {
            before + "\n"@ + name
        }
    }
}

impl Solution {
    /// The plan, one operator to a line.
    pub fn format(&self, task: &Task) -> (res: String)
        requires
            crate::fdr_execution::operators_in(task@, self.operators@),
        ensures
            res@ == plan_text(task@, self.operators@, self.operators@.len()),
    {
        let ghost t = task@;
        let ghost ops = self.operators@;
        let mut res = String::new();
        let mut i: usize = 0;
        assert(res@ =~= plan_text(t, ops, 0));
        while i < self.operators.len()
            invariant
                t == task@,
                ops == self.operators@,
                crate::fdr_execution::operators_in(t, ops),
                i <= ops.len(),
                res@ == plan_text(t, ops, i as nat),
            decreases ops.len() - i,
        {
            assert(ops[i as int] < t.operators.len());
            let operator = &task.operators[self.operators[i]];
            assert(t.operators[ops[i as int] as int] == operator@);
            let ghost before = res@;
            if i > 0 {
                res.append("\n");
            }
            res.append("(");
            res.append(operator.name.as_str());
            res.append(")");
            proof {
                let name = "("@ + operator@.name + ")"@;
                if i == 0 {
                    assert(res@ =~= name);
                } else {
                    assert(res@ =~= before + "\n"@ + name);
                }
            }
            i = i + 1;
        }
        res
    }
}

/// What is wrong with the parameters for a finite-domain search, if anything.
pub open spec fn objection(pl: &Planner, params: &Parameters) -> Option<Seq<char>> {
    if params.flaw_orders@.len() == 0 {
        Some("at least one flaw-selection order is required"@)
    } else if params.search_limits@.len() < params.flaw_orders@.len() {
        Some("one search limit is required per flaw-selection order"@)
    } else if params.action_cost == ActionCost::Duration || params.action_cost == ActionCost::Relative {
        Some("finite-domain POCL supports PDDL task costs or explicit unit costs"@)
    } else {
        terms_objection(pl, params.heuristic.ranking())
    }
}

/// What is wrong with the first ranking term that is not supported.
pub open spec fn terms_objection(pl: &Planner, terms: Seq<HVal>) -> Option<Seq<char>>
    decreases terms.len(),
{
    if terms.len() == 0 {
        None
    } else if term_supported(pl, terms[0]) {
        terms_objection(pl, terms.drop_first())
    } else {
        match pl.lm() {
            Err(e) if terms[0].fdr_only() => Some(e.message()),
            _ => Some("SAMPLE_FF, LPLAN, and COMPILE heuristics operate on the literal plan representation"@),
        }
    }
}

proof fn lemma_no_objection(pl: &Planner, terms: Seq<HVal>)
    requires
        terms_objection(pl, terms) is None,
    ensures
        terms_supported(pl, terms),
    decreases terms.len(),
{
    if terms.len() > 0 {
        lemma_no_objection(pl, terms.drop_first());
        assert forall|i: int| 0 <= i < terms.len() implies term_supported(pl, #[trigger] terms[i]) by {
            if i > 0 {
                assert(terms[i] == terms.drop_first()[i - 1]);
            }
        }
    }
}

fn unsupported(what: &str) -> (res: Error)
    ensures
        res matches Error::Unsupported(text) && text@ == what@,
{
    Error::Unsupported(String::from_str(what))
}

impl<'a> Planner<'a> {
    /// Checks that the parameters are those of a finite-domain search.
    pub fn validate_params(&self, params: &Parameters) -> (res: Result<(), Error>)
        ensures
            match (res, objection(self, params)) {
                (Ok(_), None) => is_valid(self, params),
                (Err(Error::Unsupported(what)), Some(text)) => what@ == text,
                _ => false,
            },
    {
        if params.flaw_orders.len() == 0 {
            return Err(unsupported("at least one flaw-selection order is required"));
        }
        if params.search_limits.len() < params.flaw_orders.len() {
            return Err(unsupported("one search limit is required per flaw-selection order"));
        }
        if params.action_cost == ActionCost::Duration || params.action_cost == ActionCost::Relative {
            return Err(unsupported("finite-domain POCL supports PDDL task costs or explicit unit costs"));
        }
        let terms = params.heuristic.terms();
        let ghost all = terms@;
        let mut i: usize = 0;
        assert(all.skip(0) =~= all);
        while i < terms.len()
            invariant
                all == terms@,
                all == params.heuristic.ranking(),
                i <= all.len(),
                objection(self, params) == terms_objection(self, all),
                terms_objection(self, all) == terms_objection(self, all.skip(i as int)),
            decreases all.len() - i,
        {
            assert(all.skip(i as int)[0] == all[i as int]);
            assert(all.skip(i as int).drop_first() =~= all.skip(i + 1));
            match terms[i] {
                HVal::LmCut | HVal::LmCutR => {
                    if let Err(e) = self.lmcut() {
                        return Err(Error::Unsupported(e.to_text()));
                    }
                },
                HVal::SampleFf(_) | HVal::Lplan | HVal::Compile(_) => {
                    return Err(
                        unsupported("SAMPLE_FF, LPLAN, and COMPILE heuristics operate on the literal plan representation"),
                    );
                },
                _ => {},
            }
            i = i + 1;
        }
        proof {
            assert(all.skip(i as int).len() == 0);
            lemma_no_objection(self, all);
        }
        Ok(())
    }
}

/// The facts of the task can be counted.
fn facts_fit(task: &Task) -> (res: bool)
    ensures
        res == (count_facts(task@.variables) < usize::MAX),
{
    let ghost vs = task@.variables;
    let mut n: usize = 0;
    let mut i: usize = 0;
    assert(vs.take(0) =~= Seq::empty());
    while i < task.variables.len()
        invariant
            vs == task@.variables,
            i <= vs.len(),
            n == count_facts(vs.take(i as int)),
        decreases vs.len() - i,
    {
        assert(vs[i as int] == task.variables@[i as int]@);
        proof {
            crate::fdr_lmcut::lemma_count_take(vs, i as int);
        }
        match n.checked_add(task.variables[i].values.len()) {
            Some(sum) => {
                n = sum;
            },
            None => {
                return false;
            },
        }
        i = i + 1;
    }
    assert(vs.take(i as int) =~= vs);
    n < usize::MAX
}

/// The outcome and the statistics are those of a run of the search over the planner's
/// task with the parameters, and the plans that it made bear the outcome out.
pub open spec fn is_solved(pl: &Planner, params: &Parameters, outcome: Outcome, stats: SearchStats) -> bool {
    &&& is_run(pl, params, outcome, stats)
    &&& exists|history: Seq<Node>| #[trigger] is_search_result(pl, params, history, outcome, stats.nodes_generated as nat)
}

/// The planner holds the tables of the task under the cost model.
pub open spec fn is_planner_of(pl: &Planner, t: TaskView, cost: ActionCost) -> bool {
    pl.wf() && pl.t() == t && pl.model() == cost
}

/// Runs finite-domain POCL search using the same algorithms, heuristic syntax,
/// flaw-selection orders, weights, limits, and statistics as the main planner.
/// A task with more facts than can be counted is not supported.
pub fn solve_with_params(task: &Task, params: &Parameters) -> (res: Result<(Outcome, SearchStats), Error>)
    requires
        task.wf(),
        task@.axioms_converge(),
    ensures
        if count_facts(task@.variables) < usize::MAX {
            exists|pl: Planner|
                {
                    &&& #[trigger] is_planner_of(&pl, task@, params.action_cost)
                    &&& match (res, objection(&pl, params)) {
                        (Ok(found), None) => is_solved(&pl, params, found.0, found.1),
                        (Err(Error::Unsupported(what)), Some(text)) => what@ == text,
                        _ => false,
                    }
                }
        } else {
            res matches Err(Error::Unsupported(what)) && what@ == "tasks with more facts than can be counted"@
        },
{
    if !facts_fit(task) {
        return Err(unsupported("tasks with more facts than can be counted"));
    }
    let planner = Planner::with_action_cost(task, params.action_cost);
    assert(is_planner_of(&planner, task@, params.action_cost));
    match planner.validate_params(params) {
        Err(e) => Err(e),
        Ok(_) => Ok(planner.solve(params)),
    }
}

/// The default parameters with a limit.
pub open spec fn has_default_profile(params: &Parameters, node_limit: usize) -> bool {
    &&& params.search_algorithm == SearchAlgorithm::A
    &&& params.heuristic.ranking() == seq![HVal::Ucpop]
    &&& params.action_cost == ActionCost::Task
    &&& params.weight == WEIGHT_ONE
    &&& params.flaw_orders@.len() == 1
    &&& params.flaw_orders@[0].tiers() == ucpop_tiers()
    &&& params.search_limits@ == seq![node_limit]
}

/// Runs finite-domain POCL search with the default ranking and flaw order and a
/// single generated-node limit. This wrapper is convenient for library callers
/// that do not need the full [`Parameters`] surface.
pub fn solve(task: &Task, node_limit: usize) -> (res: (Outcome, SearchStats))
    requires
        task.wf(),
        task@.axioms_converge(),
        count_facts(task@.variables) < usize::MAX,
    ensures
        exists|pl: Planner, params: Parameters|
            #![trigger is_planner_of(&pl, task@, ActionCost::Task), has_default_profile(&params, node_limit)]
            is_planner_of(&pl, task@, ActionCost::Task) && has_default_profile(&params, node_limit) && is_solved(
                &pl,
                &params,
                res.0,
                res.1,
            ),
        res.1.nodes_generated <= node_limit || res.1.nodes_generated == 1,
{
    let mut search_limits: Vec<usize> = Vec::new();
    search_limits.push(node_limit);
    let mut params = Parameters::default();
    params.search_limits = search_limits;
    let planner = Planner::with_action_cost(task, ActionCost::Task);
    proof {
        assert(is_planner_of(&planner, task@, ActionCost::Task));
        assert(params.search_limits@ =~= seq![node_limit]);
        assert(has_default_profile(&params, node_limit));
    }
    let res = planner.solve(&params);
    proof {
        assert(is_solved(&planner, &params, res.0, res.1));
        let history = choose|history: Seq<Node>| #[trigger]
            is_search_result(&planner, &params, history, res.0, res.1.nodes_generated as nat);
        lemma_one_order(&planner, &params, history);
        assert(limit_of(&params, 0) == node_limit);
    }
    res
}

/// With one order every node is generated under it.
proof fn lemma_one_order(pl: &Planner, params: &Parameters, history: Seq<Node>)
    requires
        params.flaw_orders@.len() == 1,
        crate::fdr_search::is_history(pl, params, history),
    ensures
        crate::fdr_search::count_nodes(history, 0) == history.len(),
{
    assert forall|i: int| 0 <= i < history.len() implies (#[trigger] history[i]).order == 0 by {
        assert(crate::fdr_search::is_grown(pl, params, history, i));
    }
    lemma_count_all(history);
}

proof fn lemma_count_all(history: Seq<Node>)
    requires
        forall|i: int| 0 <= i < history.len() ==> (#[trigger] history[i]).order == 0,
    ensures
        crate::fdr_search::count_nodes(history, 0) == history.len(),
    decreases history.len(),
{
    if history.len() > 0 {
        let shorter = history.drop_last();
        assert forall|i: int| 0 <= i < shorter.len() implies (#[trigger] shorter[i]).order == 0 by {
            assert(shorter[i] == history[i]);
        }
        lemma_count_all(shorter);
    }
}

} // verus!
