//! Ranking plans. Lower is better.
//!
//! Ranks are integers; a term that multiplies by the weight counts in
//! billionths.

use vstd::prelude::*;

use crate::fdr_rank::{as_finite, estimate_ranks, finite_rank, plain_ranks, ranks_of_estimate, total_rank, twice, INFINITE_RANK};
use crate::flaws::open_views;
use crate::formula::AtomView;
use crate::graph_extract::{actions_cost, goals_of, means_of};
use crate::relaxed_plan::{all_needed, is_relaxed_plan};
use crate::graph_model::{GraphView, Reading};
use crate::graph_plan::{formula_value, plan_opens, plan_steps, value_at};
use crate::heuristics::{any_reads_graph, HVal, Heuristic};
use crate::hvalue::{cost_sum, work_sum, NO_COST, NO_WORK};
use crate::ground_task::BaseGroundTask;
use crate::lplan::{is_lplan_rank, lplan_rank};
use crate::params::ActionCost;
use crate::plan::{counted, Plan};
use crate::plan_model::PlanView;
use crate::planning_graph::PlanningGraph;
use crate::sample_ff::{is_sample_ff_rank, sample_ff_rank, SampleFfModel};
use crate::search::{ContextView, SearchContext};
use crate::select::{graph_or_none, has_graph};
use crate::step::{step_views, StepActionView, StepView};
use crate::typing::TypeContext;

verus! {

/// A sum of counts, as far as it can be counted.
pub open spec fn capped_sum(a: usize, b: usize) -> usize {
    if a + b > usize::MAX {
        usize::MAX
    } else {
        (a + b) as usize
    }
}

/// What the first `n` steps cost, the synthetic ones nothing.
pub open spec fn committed_cost(cost: ActionCost, steps: Seq<StepView>, n: nat) -> usize
    decreases n,
{
    if n == 0 {
        0
    } else {
        let rest = committed_cost(cost, steps, (n - 1) as nat);
        if steps[n - 1].action.is_synthetic() {
            rest
        } else {
            capped_sum(rest, cost.cost_of(steps[n - 1].action.cost as usize))
        }
    }
}

/// The cost and the work of the first `n` open conditions.
pub open spec fn open_totals(g: GraphView, cv: ContextView, p: PlanView, reuse: bool, n: nat) -> (u128, u32)
    decreases n,
{
    if n == 0 {
        (0, 0)
    } else {
        let (cost, work) = open_totals(g, cv, p, reuse, (n - 1) as nat);
        let oc = p.opens[n - 1];
        let v = value_at(g, cv.dynamic, p.typing(cv), p, oc.condition, oc.step_id, reuse);
        (cost_sum(cost, v.add_cost), work_sum(work, v.add_work))
    }
}

/// From here on the additive cost of a plan is taken to be infinite.
pub const COST_LIMIT: u128 = 2147483647;

/// The ranks of an additive cost alone.
pub open spec fn bare_cost_ranks(cost: u128) -> (i128, i128) {
    if cost >= COST_LIMIT {
        (INFINITE_RANK, INFINITE_RANK)
    } else {
        (finite_rank(cost as int), finite_rank(cost as int))
    }
}

/// What the estimates that do not come from the planning graph are made from: the
/// ground task of `LPLAN` and the model of `SAMPLE_FF`, both needed in ground search
/// only, and term by term the ranks that an outside planner gave for `COMPILE`.
pub struct Models<'a> {
    pub base: Option<&'a BaseGroundTask>,
    pub sampling: Option<&'a SampleFfModel>,
    pub compiled: Vec<i128>,
}

impl<'a> Models<'a> {
    /// The models are there that the terms need.
    pub open spec fn cover(&self, ground: bool, terms: Seq<HVal>) -> bool {
        &&& self.compiled@.len() == terms.len()
        &&& self.base matches Some(b) ==> b@.wf()
        &&& self.sampling matches Some(m) ==> m.wf()
        &&& forall|k: int|
            0 <= k < terms.len() && ground ==> {
                &&& #[trigger] terms[k] is Lplan ==> self.base is Some
                &&& terms[k] is SampleFf ==> self.sampling is Some
            }
    }
}

/// The ranks of an additive cost: with the committed cost, and alone.
pub open spec fn cost_ranks(g: usize, weight: i128, cost: u128) -> (i128, i128) {
    if cost >= COST_LIMIT {
        (INFINITE_RANK, INFINITE_RANK)
    } else {
        (total_rank(g, weight, cost as nat), finite_rank(cost as int))
    }
}

/// The ranks of the cost of a relaxed plan, infinite if there is none.
pub open spec fn is_relax_rank(
    pg: GraphView,
    steps: Seq<StepActionView>,
    cv: ContextView,
    weight: i128,
    p: PlanView,
    reuse: bool,
    r: (i128, i128),
) -> bool {
    let goals = goals_of(pg, Reading { typing: p.typing(cv), classes: p.classes }, p.opens, p.opens.len());
    let means = means_of(pg, steps, p, reuse);
    let g = committed_cost(cv.cost, p.steps, p.steps.len());
    if r == (INFINITE_RANK, INFINITE_RANK) {
        exists|list: Seq<AtomView>| #[trigger] all_needed(goals, means, list) && list.len() > 0 && means(list.last()) is Nothing
    } else {
        exists|list: Seq<AtomView>, ops: Seq<usize>| #[trigger]
            is_relaxed_plan(goals, means, list, ops) && r == estimate_ranks(g, weight, actions_cost(steps, ops, ops.len()) as nat)
    }
}

/// The ranks of a plan under a term: the first with the committed cost where the
/// term counts it, the second without. `LPLAN`, `SAMPLE_FF` and `COMPILE` have no part
/// of their own for the committed cost, so that both ranks are the same.
pub open spec fn is_plan_rank(
    pg: GraphView,
    steps: Seq<StepActionView>,
    ctx: &SearchContext,
    weight: i128,
    p: PlanView,
    id: usize,
    term: HVal,
    models: &Models,
    k: int,
    r: (i128, i128),
) -> bool {
    let cv = ctx@;
    let g = committed_cost(cv.cost, p.steps, p.steps.len());
    let opens = counted(p.opens.len());
    let threats = counted(p.unsafes.len());
    match term {
        HVal::Lifo => r == twice(-(id as int)),
        HVal::Fifo => r == twice(id as int),
        HVal::Oc => r == twice(opens as int),
        HVal::Uc => r == twice(threats as int),
        HVal::Buc => r == twice(
            if threats > 0 {
                1
            } else {
                0
            },
        ),
        HVal::SPlusOc => r == estimate_ranks(p.num_steps as usize, weight, opens as nat),
        HVal::Ucpop => r == estimate_ranks(g, weight, (opens + threats) as nat),
        HVal::Add => r == cost_ranks(g, weight, open_totals(pg, cv, p, false, p.opens.len()).0),
        HVal::Addr => r == cost_ranks(g, weight, open_totals(pg, cv, p, true, p.opens.len()).0),
        HVal::AddCost => r == bare_cost_ranks(open_totals(pg, cv, p, false, p.opens.len()).0),
        HVal::AddrCost => r == bare_cost_ranks(open_totals(pg, cv, p, true, p.opens.len()).0),
        HVal::AddWork => r == plain_ranks(open_totals(pg, cv, p, false, p.opens.len()).1 as u128, NO_WORK as u128),
        HVal::AddrWork => r == plain_ranks(open_totals(pg, cv, p, true, p.opens.len()).1 as u128, NO_WORK as u128),
        HVal::Relax => is_relax_rank(pg, steps, cv, weight, p, false, r),
        HVal::RelaxR => is_relax_rank(pg, steps, cv, weight, p, true, r),
        HVal::SampleFf(n) => r.0 == r.1 && is_sample_ff_rank(ctx.params.ground_actions, models.sampling, weight, p, id, n as nat, r.0),
        HVal::Lplan => r.0 == r.1 && is_lplan_rank(ctx, models.base, weight, p, r.0),
        HVal::Compile(_) => r == (models.compiled@[k], models.compiled@[k]),
        HVal::LmCut | HVal::LmCutR => false,
    }
}

/// The actions of the graph that relaxed plans are made of.
pub open spec fn graph_steps(pg: Option<&PlanningGraph>) -> Seq<StepActionView> {
    match pg {
        Some(g) => g.steps(),
        None => seq![],
    }
}

/// The two ranks of a plan: by total cost, and greedy. The greedy one ends with
/// the number of open conditions and prefers the newest plan.
pub open spec fn are_plan_ranks(
    pg: Option<&PlanningGraph>,
    ctx: &SearchContext,
    weight: i128,
    terms: Seq<HVal>,
    models: &Models,
    p: PlanView,
    id: usize,
    rank: Seq<i128>,
    greedy: Seq<i128>,
) -> bool {
    &&& rank.len() == terms.len()
    &&& greedy.len() == terms.len() + 2
    &&& forall|k: int|
        0 <= k < terms.len() ==> is_plan_rank(
            graph_or_none(pg),
            graph_steps(pg),
            ctx,
            weight,
            p,
            id,
            #[trigger] terms[k],
            models,
            k,
            (rank[k], greedy[k]),
        )
    &&& greedy[terms.len() as int] == counted(p.opens.len())
    &&& greedy[terms.len() as int + 1] == -(id as int)
}

/// Whether every term is defined for literal plans.
pub open spec fn literal_terms(terms: Seq<HVal>) -> bool {
    forall|k: int| 0 <= k < terms.len() ==> !(#[trigger] terms[k]).fdr_only()
}

/// What the steps of a plan cost.
pub fn committed(plan: &Plan, cost: ActionCost) -> (res: usize)
    ensures
        res == committed_cost(cost, plan@.steps, plan@.steps.len()),
{
    let steps = plan_steps(plan);
    let mut sum: usize = 0;
    let mut i: usize = 0;
    while i < steps.len()
        invariant
            step_views(steps@) == plan@.steps,
            i <= steps@.len(),
            sum == committed_cost(cost, plan@.steps, i as nat),
        decreases steps@.len() - i,
    {
        assert(plan@.steps[i as int] == steps@[i as int]@);
        if !steps[i].action.synthetic() {
            sum = sum.saturating_add(cost.resolve(steps[i].action.cost));
        }
        i = i + 1;
    }
    sum
}

/// The cost and the work of the open conditions of a plan.
fn totals(pg: &PlanningGraph, ctx: &SearchContext, tctx: &TypeContext, plan: &Plan, reuse: bool) -> (res: (u128, u32))
    requires
        pg.wf(),
        ctx.wf(),
        plan.wf(),
        tctx.wf(),
        tctx@ == plan@.typing(ctx@),
    ensures
        res == open_totals(pg@, ctx@, plan@, reuse, plan@.opens.len()),
{
    let opens = plan_opens(plan);
    let mut total = crate::hvalue::HeuristicValue::of_zero();
    let mut i: usize = 0;
    while i < opens.len()
        invariant
            pg.wf(),
            ctx.wf(),
            plan.wf(),
            tctx.wf(),
            tctx@ == plan@.typing(ctx@),
            open_views(opens@) == plan@.opens,
            i <= opens@.len(),
            (total.add_cost, total.add_work) == open_totals(pg@, ctx@, plan@, reuse, i as nat),
        decreases opens@.len() - i,
    {
        assert(plan@.opens[i as int] == opens@[i as int]@);
        let (v, _) = formula_value(pg, &ctx.domain.predicates, tctx, plan, &opens[i].condition, opens[i].step_id, reuse);
        total.add_assign(&v);
        i = i + 1;
    }
    (total.add_cost(), total.add_work())
}

/// The ranks of an additive estimate under its term.
fn additive(term: HVal, totals: (u128, u32), g: usize, weight: i128) -> (res: (i128, i128))
    ensures
        res == (match term {
            HVal::Add | HVal::Addr => cost_ranks(g, weight, totals.0),
            HVal::AddCost | HVal::AddrCost => bare_cost_ranks(totals.0),
            _ => plain_ranks(totals.1 as u128, NO_WORK as u128),
        }),
{
    let (cost, work) = totals;
    match term {
        HVal::Add | HVal::Addr => {
            if cost >= COST_LIMIT {
                (INFINITE_RANK, INFINITE_RANK)
            } else {
                (ranks_of_estimate(g, weight, cost).0, as_finite(cost))
            }
        },
        HVal::AddCost | HVal::AddrCost => {
            if cost >= COST_LIMIT {
                (INFINITE_RANK, INFINITE_RANK)
            } else {
                (as_finite(cost), as_finite(cost))
            }
        },
        _ => {
            if work == NO_WORK {
                (INFINITE_RANK, INFINITE_RANK)
            } else {
                (as_finite(work as u128), as_finite(work as u128))
            }
        },
    }
}

/// The ranks of a relaxed plan's cost.
fn relaxed(pg: &PlanningGraph, ctx: &SearchContext, tctx: &TypeContext, plan: &Plan, weight: i128, reuse: bool, g: usize) -> (res: (i128, i128))
    requires
        pg.wf(),
        ctx.wf(),
        tctx.wf(),
        tctx@ == plan@.typing(ctx@),
        g == committed_cost(ctx@.cost, plan@.steps, plan@.steps.len()),
    ensures
        is_relax_rank(pg@, pg.steps(), ctx@, weight, plan@, reuse, res),
{
    match pg.relaxed_plan_size(tctx, plan, reuse) {
        Some(h) => ranks_of_estimate(g, weight, h),
        None => (INFINITE_RANK, INFINITE_RANK),
    }
}

impl Heuristic {
    /// Computes the A* rank ([`plan_rank`](Self::plan_rank)) and the GBFS rank
    /// ([`plan_rank_gbfs`](Self::plan_rank_gbfs)) in one pass, sharing every
    /// heuristic evaluation between them. The two ranks differ only in the
    /// g-component (committed cost) mixed into some entries and the trailing GBFS
    /// tiebreakers, so algorithms that need both orderings of the same plan
    /// (`ALT`) pay one evaluation instead of two.
    pub fn plan_rank_both(
        &self,
        plan: &Plan,
        weight: i128,
        pg: Option<&PlanningGraph>,
        search_ctx: &SearchContext,
        models: &Models,
    ) -> (res: (Vec<i128>, Vec<i128>))
        requires
            search_ctx.wf(),
            plan.wf(),
            literal_terms(self.ranking()),
            any_reads_graph(self.ranking()) ==> has_graph(pg),
            models.cover(search_ctx.params.ground_actions, self.ranking()),
        ensures
            are_plan_ranks(pg, search_ctx, weight, self.ranking(), models, plan@, plan.id, res.0@, res.1@),
    {
        let terms = self.terms();
        let types = plan.types(search_ctx);
        let tctx = search_ctx.type_ctx(&types);
        let g = committed(plan, search_ctx.params.action_cost);
        let opens = plan.num_open_conds();
        let threats = plan.num_unsafes();
        let id = plan.id;
        let mut rank: Vec<i128> = Vec::new();
        let mut greedy: Vec<i128> = Vec::new();
        let mut add: Option<(u128, u32)> = None;
        let mut addr: Option<(u128, u32)> = None;
        let ghost cv = search_ctx@;
        let ghost p = plan@;
        let mut k: usize = 0;
        while k < terms.len()
            invariant
                search_ctx.wf(),
                plan.wf(),
                cv == search_ctx@,
                p == plan@,
                tctx.wf(),
                tctx@ == p.typing(cv),
                terms@ == self.ranking(),
                literal_terms(terms@),
                any_reads_graph(terms@) ==> has_graph(pg),
                models.cover(search_ctx.params.ground_actions, terms@),
                g == committed_cost(cv.cost, p.steps, p.steps.len()),
                opens == counted(p.opens.len()),
                threats == counted(p.unsafes.len()),
                id == plan.id,
                add matches Some(t) ==> t == open_totals(graph_or_none(pg), cv, p, false, p.opens.len()),
                addr matches Some(t) ==> t == open_totals(graph_or_none(pg), cv, p, true, p.opens.len()),
                k <= terms@.len(),
                rank@.len() == k,
                greedy@.len() == k,
                forall|j: int|
                    0 <= j < k ==> is_plan_rank(
                        graph_or_none(pg),
                        graph_steps(pg),
                        search_ctx,
                        weight,
                        p,
                        id,
                        #[trigger] terms@[j],
                        models,
                        j,
                        (rank@[j], greedy@[j]),
                    ),
            decreases terms@.len() - k,
        {
            let term = terms[k];
            proof {
                assert(!terms@[k as int].fdr_only());
                if term.reads_graph() {
                    assert(terms@[k as int].reads_graph());
                }
            }
            let (a, b): (i128, i128) = match term {
                HVal::Lifo => (-(id as i128), -(id as i128)),
                HVal::Fifo => (id as i128, id as i128),
                HVal::Oc => (opens as i128, opens as i128),
                HVal::Uc => (threats as i128, threats as i128),
                HVal::Buc => {
                    let value: i128 = if threats > 0 {
                        1
                    } else {
                        0
                    };
                    (value, value)
                },
                HVal::SPlusOc => ranks_of_estimate(plan.num_steps(), weight, opens as u128),
                HVal::Ucpop => ranks_of_estimate(g, weight, opens as u128 + threats as u128),
                HVal::Add | HVal::AddCost | HVal::AddWork => {
                    let t = match (add, pg) {
                        (Some(t), _) => t,
                        (None, Some(graph)) => totals(graph, search_ctx, &tctx, plan, false),
                        (None, None) => (NO_COST, NO_WORK),
                    };
                    add = Some(t);
                    additive(term, t, g, weight)
                },
                HVal::Addr | HVal::AddrCost | HVal::AddrWork => {
                    let t = match (addr, pg) {
                        (Some(t), _) => t,
                        (None, Some(graph)) => totals(graph, search_ctx, &tctx, plan, true),
                        (None, None) => (NO_COST, NO_WORK),
                    };
                    addr = Some(t);
                    additive(term, t, g, weight)
                },
                HVal::Relax | HVal::RelaxR => match pg {
                    Some(graph) => relaxed(graph, search_ctx, &tctx, plan, weight, term == HVal::RelaxR, g),
                    None => (INFINITE_RANK, INFINITE_RANK),
                },
                HVal::SampleFf(n) => {
                    let value = match models.sampling {
                        Some(model) => sample_ff_rank(plan, search_ctx, model, weight, n),
                        None => ranks_of_estimate(plan.num_steps(), weight, opens as u128).0,
                    };
                    (value, value)
                },
                HVal::Lplan => {
                    let value = match models.base {
                        Some(base) => lplan_rank(plan, search_ctx, base, weight),
                        None => ranks_of_estimate(plan.num_steps(), weight, opens as u128).0,
                    };
                    (value, value)
                },
                HVal::Compile(_) => (models.compiled[k], models.compiled[k]),
                HVal::LmCut | HVal::LmCutR => (INFINITE_RANK, INFINITE_RANK),
            };
            rank.push(a);
            greedy.push(b);
            k = k + 1;
        }
        greedy.push(opens as i128);
        greedy.push(-(id as i128));
        (rank, greedy)
    }

    /// The ranks of a plan by total cost. Lower is better.
    pub fn plan_rank(&self, plan: &Plan, weight: i128, pg: Option<&PlanningGraph>, search_ctx: &SearchContext, models: &Models) -> (res: Vec<i128>)
        requires
            search_ctx.wf(),
            plan.wf(),
            literal_terms(self.ranking()),
            any_reads_graph(self.ranking()) ==> has_graph(pg),
            models.cover(search_ctx.params.ground_actions, self.ranking()),
        ensures
            exists|greedy: Seq<i128>| #[trigger]
                are_plan_ranks(pg, search_ctx, weight, self.ranking(), models, plan@, plan.id, res@, greedy),
    {
        self.plan_rank_both(plan, weight, pg, search_ctx, models).0
    }

    /// Greedy-BFS variant of [`plan_rank`](Self::plan_rank): strips the
    /// g-component (committed cost) from each term so the primary sort criterion
    /// is pure h, and ends with the tiebreakers. Heuristics that have no g
    /// component (e.g. `ADD_COST`, `OC`, `FIFO`) are unchanged.
    pub fn plan_rank_gbfs(&self, plan: &Plan, weight: i128, pg: Option<&PlanningGraph>, search_ctx: &SearchContext, models: &Models) -> (res: Vec<
        i128,
    >)
        requires
            search_ctx.wf(),
            plan.wf(),
            literal_terms(self.ranking()),
            any_reads_graph(self.ranking()) ==> has_graph(pg),
            models.cover(search_ctx.params.ground_actions, self.ranking()),
        ensures
            exists|rank: Seq<i128>| #[trigger]
                are_plan_ranks(pg, search_ctx, weight, self.ranking(), models, plan@, plan.id, rank, res@),
    {
        self.plan_rank_both(plan, weight, pg, search_ctx, models).1
    }
}

} // verus!
