//! Refinement of a plan: the flaw that an order selects is resolved.
use std::rc::Rc;

use vstd::prelude::*;

use crate::graph_ground::{graph_form, graph_forms, to_graph_form};
use crate::graph_model::{is_graph_of, reachable_actions};
use crate::heuristics::{any_estimates, any_reads_graph, SelectionCriterion};
use crate::plan::{all_wf, flaw_plans, plan_views, Flaw, Plan, StepAction};
use crate::plan_model::PlanView;
use crate::planning_graph::PlanningGraph;
use crate::rank::{are_plan_ranks, literal_terms, Models};
use crate::search::{action_views, actions_of, all_in_scope, ContextView, SearchContext};
use crate::select::{graph_or_none, has_graph, is_flaw_of, picked};
use crate::step::{StepActionView, StepTypes, StepTypesView};

verus! {

/// The plans that the selected flaw leads to.
pub open spec fn refined(cv: ContextView, p: PlanView, g: crate::graph_model::GraphView, tiers: Seq<SelectionCriterion>) -> Seq<PlanView> {
    match picked(cv, p, g, tiers).flaw {
        Some(f) => flaw_plans(cv, p, f),
        None => seq![],
    }
}

/// The variable types of no step.
pub open spec fn no_types() -> StepTypesView {
    StepTypesView { steps: seq![], fresh_base: 0, fresh: seq![] }
}

impl<'a> SearchContext<'a> {
    /// The ground actions of the planning graph, with costs resolved.
    pub open spec fn graph_actions(&self) -> Seq<StepActionView> {
        let t = self@.typing(no_types());
        let actions = if self.params.ground_actions {
            self@.actions
        } else {
            actions_of(t, self.domain.actions@, true, self.domain.actions@.len())
        };
        graph_forms(t, self.params.action_cost, true, actions)
    }

    /// The planning graph of the problem. In lifted search it keeps the groundings whose
    /// precondition is within reach.
    pub fn planning_graph(&self) -> (res: PlanningGraph)
        requires
            self.wf(),
            all_in_scope(self.domain.actions@),
        ensures
            res.wf(),
            self.graph_actions().len() <= usize::MAX - 2 ==> {
                &&& is_graph_of(res@, self@.dynamic, self@.init, self.graph_actions())
                &&& res.steps() == (if self.params.ground_actions {
                    self.graph_actions()
                } else {
                    reachable_actions(res@, self.graph_actions(), self.graph_actions().len())
                })
            },
    {
        let none = StepTypes { steps: Vec::new(), fresh_base: 0, fresh: Vec::new() };
        assert(none@ =~= no_types());
        let tctx = self.type_ctx(&none);
        if !self.params.ground_actions {
            return PlanningGraph::build_from_schemas(
                &self.domain.predicates,
                &self.init_action,
                &self.domain.actions,
                &tctx,
                self.params.action_cost,
                true,
            );
        }
        let mut actions: Vec<Rc<StepAction>> = Vec::new();
        let mut i: usize = 0;
        while i < self.actions.len()
            invariant
                self.wf(),
                tctx.wf(),
                tctx@ == self@.typing(no_types()),
                i <= self.actions@.len(),
                actions@.len() == i,
                forall|k: int| 0 <= k < i ==> (#[trigger] actions@[k])@ == graph_form(tctx@, self.params.action_cost, true, self@.actions[k]),
            decreases self.actions@.len() - i,
        {
            actions.push(Rc::new(to_graph_form(&tctx, self.params.action_cost, true, &self.actions[i])));
            i = i + 1;
        }
        assert(action_views(actions@) =~= self.graph_actions());
        PlanningGraph::build(&self.domain.predicates, &self.init_action, actions)
    }
}

impl Plan {
    /// The flaw that a flaw order selects: `None` only if the plan has none.
    pub fn get_flaw_with(&self, ctx: &SearchContext, order_index: usize, pg: Option<&PlanningGraph>) -> (res: Option<Flaw>)
        requires
            ctx.wf(),
            self.wf(),
            order_index < ctx.params.flaw_orders@.len(),
            any_estimates(ctx.params.flaw_orders@[order_index as int].tiers()) ==> has_graph(pg),
        ensures
            match picked(ctx@, self@, graph_or_none(pg), ctx.params.flaw_orders@[order_index as int].tiers()).flaw {
                Some(f) => res matches Some(x) && x@ == f && is_flaw_of(self@, f),
                None => res is None,
            },
            res is None ==> self@.is_complete(),
    {
        ctx.params.flaw_orders[order_index].select(self, ctx, pg)
    }

    /// Adds the refinements of the flaw that a flaw order selects.
    pub fn refinements_with(&self, ctx: &SearchContext, order_index: usize, pg: Option<&PlanningGraph>, plans: &mut Vec<Rc<Plan>>)
        requires
            ctx.wf(),
            self.wf(),
            order_index < ctx.params.flaw_orders@.len(),
            any_estimates(ctx.params.flaw_orders@[order_index as int].tiers()) ==> has_graph(pg),
            all_wf(old(plans)@),
        ensures
            plan_views(final(plans)@) == plan_views(old(plans)@) + refined(
                ctx@,
                self@,
                graph_or_none(pg),
                ctx.params.flaw_orders@[order_index as int].tiers(),
            ),
            all_wf(final(plans)@),
    {
        let ghost before = plan_views(plans@);
        match self.get_flaw_with(ctx, order_index, pg) {
            Some(flaw) => self.resolve_flaw(ctx, &flaw, plans),
            None => {
                assert(before + seq![] =~= before);
            },
        }
    }

    /// Adds the refinements of the flaw that the first flaw order selects.
    pub fn refinements(&self, ctx: &SearchContext, pg: Option<&PlanningGraph>, plans: &mut Vec<Rc<Plan>>)
        requires
            ctx.wf(),
            self.wf(),
            ctx.params.flaw_orders@.len() > 0,
            any_estimates(ctx.params.flaw_orders@[0].tiers()) ==> has_graph(pg),
            all_wf(old(plans)@),
        ensures
            plan_views(final(plans)@) == plan_views(old(plans)@) + refined(
                ctx@,
                self@,
                graph_or_none(pg),
                ctx.params.flaw_orders@[0].tiers(),
            ),
            all_wf(final(plans)@),
    {
        self.refinements_with(ctx, 0, pg, plans)
    }

    /// Full rank vector.
    pub fn rank(&self, ctx: &SearchContext, pg: Option<&PlanningGraph>, models: &Models) -> (res: Vec<i128>)
        requires
            ctx.wf(),
            self.wf(),
            literal_terms(ctx.params.heuristic.ranking()),
            any_reads_graph(ctx.params.heuristic.ranking()) ==> has_graph(pg),
            models.cover(ctx.params.ground_actions, ctx.params.heuristic.ranking()),
        ensures
            exists|greedy: Seq<i128>| #[trigger]
                are_plan_ranks(
                    pg,
                    ctx,
                    ctx.params.weight,
                    ctx.params.heuristic.ranking(),
                    models,
                    self@,
                    self.id,
                    res@,
                    greedy,
                ),
    {
        ctx.params.heuristic.plan_rank(self, ctx.params.weight, pg, ctx, models)
    }

    /// The first entry of the rank vector.
    pub fn primary_rank(&self, ctx: &SearchContext, pg: Option<&PlanningGraph>, models: &Models) -> (res: i128)
        requires
            ctx.wf(),
            self.wf(),
            ctx.params.heuristic.ranking().len() > 0,
            literal_terms(ctx.params.heuristic.ranking()),
            any_reads_graph(ctx.params.heuristic.ranking()) ==> has_graph(pg),
            models.cover(ctx.params.ground_actions, ctx.params.heuristic.ranking()),
        ensures
            exists|rank: Seq<i128>, greedy: Seq<i128>| #[trigger]
                are_plan_ranks(
                    pg,
                    ctx,
                    ctx.params.weight,
                    ctx.params.heuristic.ranking(),
                    models,
                    self@,
                    self.id,
                    rank,
                    greedy,
                ) && res == rank[0],
    {
        let rank = self.rank(ctx, pg, models);
        rank[0]
    }
}

} // verus!
