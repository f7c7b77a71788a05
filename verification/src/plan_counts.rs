//! Refinement counting.
//!
//! Counts how many child plans a flaw would produce. The counts feed the
//! LR/MR/NEW/REUSE flaw orders and the `max_refinements` limits. Sub-counts are
//! cached across calls: a negative value means "not yet computed".
use std::rc::Rc;

use vstd::prelude::*;

use crate::bindings::{literals_clash, Binding};
use crate::flaws::{OpenCondition, OpenView, Unsafe, UnsafeView};
use crate::formula::Literal;
use crate::orderings::may_come_before;
use crate::plan::{plan_views, Plan};
use crate::plan_model::{
    absence_plan, appended, is_threat, new_step_plans, open_plans, ordered_plan, reuse_plans, separated_plan, unsafe_plans, PlanView,
};
use crate::search::{achiever_views, lemma_achievers, ContextView, SearchContext};
use crate::step::step_views;

verus! {

/// A count as far as it can be stored.
pub open spec fn capped(n: nat) -> i32 {
    if n < i32::MAX {
        n as i32
    } else {
        i32::MAX
    }
}

/// Whether a cached count is the count, if it has been computed.
pub open spec fn is_cached(cache: i32, count: i32) -> bool {
    cache < 0 || cache == count
}

/// One if there is a plan, else zero.
pub open spec fn one_if(p: Option<PlanView>) -> i32 {
    if p is Some {
        1
    } else {
        0
    }
}

/// How many plans separate a threat from its link.
pub open spec fn separations(cv: ContextView, p: PlanView, u: UnsafeView) -> i32 {
    if is_threat(cv, p, u) {
        one_if(separated_plan(cv, p, u))
    } else {
        0
    }
}

/// How many plans order a threat behind its link.
pub open spec fn promotions(cv: ContextView, p: PlanView, u: UnsafeView) -> i32 {
    if is_threat(cv, p, u) {
        one_if(ordered_plan(p, u, u.link.to_id, u.step_id))
    } else {
        0
    }
}

/// How many plans order a threat before its link.
pub open spec fn demotions(cv: ContextView, p: PlanView, u: UnsafeView) -> i32 {
    if is_threat(cv, p, u) {
        one_if(ordered_plan(p, u, u.step_id, u.link.from_id))
    } else {
        0
    }
}

/// How many plans resolve a threat.
pub open spec fn unsafe_count(cv: ContextView, p: PlanView, u: UnsafeView) -> i32 {
    unsafe_plans(cv, p, u).len() as i32
}

/// The number of plans that resolve a threat is that of the three ways, or one
/// when it is a threat no more.
pub proof fn lemma_unsafe_count(cv: ContextView, p: PlanView, u: UnsafeView)
    ensures
        is_threat(cv, p, u) ==> unsafe_count(cv, p, u) == separations(cv, p, u) + promotions(cv, p, u) + demotions(cv, p, u),
        !is_threat(cv, p, u) ==> unsafe_count(cv, p, u) == 1,
{
}

/// How many plans support an open literal with a new step.
pub open spec fn addable_count(cv: ContextView, p: PlanView, oc: OpenView) -> i32 {
    let av = cv.achievers(oc.as_literal()->0);
    capped(new_step_plans(cv, p, oc, av, av.len()).len())
}

/// The plans that support an open literal without a new step.
pub open spec fn without_new_step(cv: ContextView, p: PlanView, oc: OpenView) -> Seq<PlanView> {
    let l = oc.as_literal()->0;
    let reused = reuse_plans(cv, p, oc, cv.achievers(l), p.steps.len());
    if l.negative {
        appended(reused, absence_plan(cv, p, oc))
    } else {
        reused
    }
}

/// How many plans support an open literal without a new step.
pub open spec fn reusable_count(cv: ContextView, p: PlanView, oc: OpenView) -> i32 {
    capped(without_new_step(cv, p, oc).len())
}

/// How many plans resolve an open condition.
pub open spec fn open_count(cv: ContextView, p: PlanView, oc: OpenView) -> i32 {
    capped(open_plans(cv, p, oc).len())
}

proof fn lemma_open_count(cv: ContextView, p: PlanView, oc: OpenView)
    requires
        oc.as_literal() is Some,
    ensures
        open_plans(cv, p, oc).len() == new_step_plans(
            cv,
            p,
            oc,
            cv.achievers(oc.as_literal()->0),
            cv.achievers(oc.as_literal()->0).len(),
        ).len() + without_new_step(cv, p, oc).len(),
{
}

/// Whether an open literal may be clobbered by an effect of some step.
pub open spec fn is_endangered(cv: ContextView, p: PlanView, oc: OpenView) -> bool {
    oc.as_literal() is Some && exists|i: int, k: int|
        0 <= i < p.steps.len() && 0 <= k < p.steps[i].action.effects.len() && #[trigger] clobbers_open(cv, p, oc, i, k)
}

/// Whether effect `k` of step `i` may clobber an open literal.
pub open spec fn clobbers_open(cv: ContextView, p: PlanView, oc: OpenView, i: int, k: int) -> bool {
    &&& may_come_before(p.order, p.steps[i].id as int, oc.step_id as int)
    &&& literals_clash(
        p.typing(cv),
        p.classes,
        seq![],
        p.steps[i].action.effects[k].literal,
        p.steps[i].id,
        oc.as_literal()->0,
        oc.step_id,
    )
}

fn cap(n: usize) -> (res: i32)
    ensures
        res == capped(n as nat),
{
    if n < i32::MAX as usize {
        n as i32
    } else {
        i32::MAX
    }
}

impl Plan {
    /// Returns the separate-refinement count for `unsafe_` (0 or 1): whether the
    /// threat's effect can be separated from the link condition.
    pub fn separable(&self, ctx: &SearchContext, unsafe_: &Unsafe) -> (res: i32)
        requires
            ctx.wf(),
            self.wf(),
        ensures
            res == separations(ctx@, self@, unsafe_@),
    {
        let mut mgu: Vec<Binding> = Vec::new();
        assert(mgu@ =~= Seq::empty());
        if self.affected(ctx, unsafe_, &mut mgu) {
            self.separate_count(ctx, unsafe_, &mgu)
        } else {
            0
        }
    }

    fn separate_count(&self, ctx: &SearchContext, unsafe_: &Unsafe, unifier: &Vec<Binding>) -> (res: i32)
        requires
            ctx.wf(),
            self.wf(),
            unifier@ == crate::plan_model::threat_unifier(ctx@, self@, unsafe_@),
        ensures
            res == one_if(separated_plan(ctx@, self@, unsafe_@)),
    {
        let mut dummy: Vec<Rc<Plan>> = Vec::new();
        assert(plan_views(dummy@) =~= seq![]);
        self.separate(ctx, &mut dummy, unsafe_, unifier);
        assert(plan_views(dummy@).len() == dummy@.len());
        if dummy.len() > 0 {
            1
        } else {
            0
        }
    }

    fn demotable(&self, unsafe_: &Unsafe) -> (res: i32)
        requires
            self.wf(),
        ensures
            res == one_if(ordered_plan(self@, unsafe_@, unsafe_.step_id, unsafe_.link.from_id)),
    {
        match self.orderings.with_order(unsafe_.step_id, unsafe_.link.from_id) {
            Some(_) => 1,
            None => 0,
        }
    }

    fn promotable(&self, unsafe_: &Unsafe) -> (res: i32)
        requires
            self.wf(),
        ensures
            res == one_if(ordered_plan(self@, unsafe_@, unsafe_.link.to_id, unsafe_.step_id)),
    {
        match self.orderings.with_order(unsafe_.link.to_id, unsafe_.step_id) {
            Some(_) => 1,
            None => 0,
        }
    }

    /// Counts the refinements for `unsafe_`, returning whether the count is
    /// within `limit`. The `&mut` parameters cache the sub-counts across calls.
    pub fn unsafe_refinements(
        &self,
        ctx: &SearchContext,
        refinements: &mut i32,
        separable: &mut i32,
        promotable: &mut i32,
        demotable: &mut i32,
        unsafe_: &Unsafe,
        limit: i32,
    ) -> (res: bool)
        requires
            ctx.wf(),
            self.wf(),
            is_cached(*old(refinements), unsafe_count(ctx@, self@, unsafe_@)),
            is_cached(*old(separable), separations(ctx@, self@, unsafe_@)),
            is_cached(*old(promotable), promotions(ctx@, self@, unsafe_@)),
            is_cached(*old(demotable), demotions(ctx@, self@, unsafe_@)),
        ensures
            res == (unsafe_count(ctx@, self@, unsafe_@) <= limit),
            is_cached(*final(refinements), unsafe_count(ctx@, self@, unsafe_@)),
            res ==> *final(refinements) >= 0,
            is_cached(*final(separable), separations(ctx@, self@, unsafe_@)),
            *old(separable) >= 0 ==> *final(separable) == *old(separable),
            is_cached(*final(promotable), promotions(ctx@, self@, unsafe_@)),
            is_cached(*final(demotable), demotions(ctx@, self@, unsafe_@)),
    {
        proof {
            lemma_unsafe_count(ctx@, self@, unsafe_@);
        }
        if *refinements >= 0 {
            return *refinements <= limit;
        }
        let mut mgu: Vec<Binding> = Vec::new();
        assert(mgu@ =~= Seq::empty());
        if self.affected(ctx, unsafe_, &mut mgu) {
            if *separable < 0 {
                *separable = self.separate_count(ctx, unsafe_, &mgu);
            }
            let mut r: i32 = *separable;
            if r <= limit {
                if *promotable < 0 {
                    *promotable = self.promotable(unsafe_);
                }
                r = r + *promotable;
                if r <= limit {
                    if *demotable < 0 {
                        *demotable = self.demotable(unsafe_);
                    }
                    *refinements = r + *demotable;
                    return *refinements <= limit;
                }
            }
            false
        } else {
            // No threat any more: the single refinement is to drop it.
            *separable = 0;
            *promotable = 0;
            *demotable = 0;
            *refinements = 1;
            1 <= limit
        }
    }

    /// Whether the given open condition is threatened by some effect of an
    /// existing step (i.e. selecting it could resolve a threat).
    pub fn unsafe_open_condition(&self, ctx: &SearchContext, open_cond: &OpenCondition) -> (res: bool)
        requires
            ctx.wf(),
            self.wf(),
        ensures
            res == is_endangered(ctx@, self@, open_cond@),
    {
        let literal = match open_cond.literal() {
            Some(l) => l,
            None => {
                return false;
            },
        };
        let types = self.types(ctx);
        let tctx = ctx.type_ctx(&types);
        let ghost t = self@.typing(ctx@);
        let steps = &types.steps;
        assert(types@.steps == self@.steps);
        let mut i: usize = 0;
        while i < steps.len()
            invariant
                tctx.wf(),
                tctx@ == t,
                t == self@.typing(ctx@),
                self.wf(),
                open_cond@.as_literal() == Some(literal@),
                step_views(steps@) == self@.steps,
                i <= steps@.len(),
                forall|a: int, k: int|
                    0 <= a < i && 0 <= k < self@.steps[a].action.effects.len() ==> !#[trigger] clobbers_open(
                        ctx@,
                        self@,
                        open_cond@,
                        a,
                        k,
                    ),
            decreases steps@.len() - i,
        {
            let s = &steps[i];
            assert(self@.steps[i as int] == s@);
            let may = self.orderings.may_order(s.id, open_cond.step_id);
            let mut k: usize = 0;
            while k < s.action.effects.len()
                invariant
                    tctx.wf(),
                    tctx@ == t,
                    t == self@.typing(ctx@),
                    open_cond@.as_literal() == Some(literal@),
                    i < self@.steps.len(),
                    self@.steps[i as int] == s@,
                    may == may_come_before(self@.order, s.id as int, open_cond.step_id as int),
                    k <= s.action.effects@.len(),
                    forall|m: int| 0 <= m < k ==> !#[trigger] clobbers_open(ctx@, self@, open_cond@, i as int, m),
                decreases s.action.effects@.len() - k,
            {
                let e = &s.action.effects[k];
                assert(s@.action.effects[k as int] == e@);
                if may && self.bindings.affects(&tctx, &e.literal, s.id, &literal, open_cond.step_id) {
                    assert(clobbers_open(ctx@, self@, open_cond@, i as int, k as int));
                    return true;
                }
                assert(!clobbers_open(ctx@, self@, open_cond@, i as int, k as int));
                k = k + 1;
            }
            i = i + 1;
        }
        false
    }

    fn addable(&self, ctx: &SearchContext, open_cond: &OpenCondition, literal: &Literal) -> (res: i32)
        requires
            ctx.wf(),
            self.wf(),
            open_cond@.as_literal() == Some(literal@),
        ensures
            res == addable_count(ctx@, self@, open_cond@),
    {
        let mut dummy: Vec<Rc<Plan>> = Vec::new();
        assert(plan_views(dummy@) =~= seq![]);
        let achievers = ctx.literal_achievers(literal);
        proof {
            lemma_achievers(ctx@, literal@);
            assert forall|i: int| 0 <= i < achievers@.len() implies (#[trigger] achievers@[i]).1 < achievers@[i].0.effects@.len() by {
                assert(achiever_views(achievers@)[i] == (achievers@[i].0@, achievers@[i].1 as int));
                assert(crate::plan::achievers_len(achiever_views(achievers@)[i]));
            }
        }
        self.add_step(ctx, &mut dummy, open_cond, &achievers);
        proof {
            let av = achiever_views(achievers@);
            let found = new_step_plans(ctx@, self@, open_cond@, av, av.len());
            assert(seq![] + found =~= found);
            assert(plan_views(dummy@).len() == dummy@.len());
        }
        cap(dummy.len())
    }

    fn reusable(&self, ctx: &SearchContext, open_cond: &OpenCondition, literal: &Literal) -> (res: i32)
        requires
            ctx.wf(),
            self.wf(),
            open_cond@.as_literal() == Some(literal@),
        ensures
            res == reusable_count(ctx@, self@, open_cond@),
    {
        let mut dummy: Vec<Rc<Plan>> = Vec::new();
        assert(plan_views(dummy@) =~= seq![]);
        let achievers = ctx.literal_achievers(literal);
        self.reuse_step(ctx, &mut dummy, open_cond, &achievers);
        proof {
            let found = reuse_plans(ctx@, self@, open_cond@, achiever_views(achievers@), self@.steps.len());
            assert(seq![] + found =~= found);
        }
        if literal.negative() {
            self.new_cw_link(ctx, &mut dummy, open_cond);
        }
        assert(plan_views(dummy@).len() == dummy@.len());
        cap(dummy.len())
    }

    /// Counts the plans that support an open literal with a new step, returning
    /// whether the count is within `limit`.
    pub fn addable_steps(&self, ctx: &SearchContext, refinements: &mut i32, literal: &Literal, open_cond: &OpenCondition, limit: i32) -> (res: bool)
        requires
            ctx.wf(),
            self.wf(),
            open_cond@.as_literal() == Some(literal@),
        ensures
            *final(refinements) == addable_count(ctx@, self@, open_cond@),
            res == (addable_count(ctx@, self@, open_cond@) <= limit),
    {
        *refinements = self.addable(ctx, open_cond, literal);
        *refinements <= limit
    }

    /// Counts the plans that support an open literal without a new step, returning
    /// whether the count is within `limit`.
    pub fn reusable_steps(&self, ctx: &SearchContext, refinements: &mut i32, literal: &Literal, open_cond: &OpenCondition, limit: i32) -> (res: bool)
        requires
            ctx.wf(),
            self.wf(),
            open_cond@.as_literal() == Some(literal@),
        ensures
            *final(refinements) == reusable_count(ctx@, self@, open_cond@),
            res == (reusable_count(ctx@, self@, open_cond@) <= limit),
    {
        *refinements = self.reusable(ctx, open_cond, literal);
        *refinements <= limit
    }

    /// Counts the refinements for the given open condition, returning whether the
    /// count is within `limit`. The `&mut` parameters cache the sub-counts across
    /// calls.
    pub fn open_cond_refinements(
        &self,
        ctx: &SearchContext,
        refinements: &mut i32,
        addable: &mut i32,
        reusable: &mut i32,
        open_cond: &OpenCondition,
        limit: i32,
    ) -> (res: bool)
        requires
            ctx.wf(),
            self.wf(),
            is_cached(*old(refinements), open_count(ctx@, self@, open_cond@)),
            open_cond@.as_literal() is Some ==> is_cached(*old(addable), addable_count(ctx@, self@, open_cond@)),
            open_cond@.as_literal() is Some ==> is_cached(*old(reusable), reusable_count(ctx@, self@, open_cond@)),
        ensures
            res == (open_count(ctx@, self@, open_cond@) <= limit),
            is_cached(*final(refinements), open_count(ctx@, self@, open_cond@)),
            res ==> *final(refinements) >= 0,
            open_cond@.as_literal() is Some ==> is_cached(*final(addable), addable_count(ctx@, self@, open_cond@)),
            open_cond@.as_literal() is Some ==> is_cached(*final(reusable), reusable_count(ctx@, self@, open_cond@)),
            open_cond@.as_literal() is None ==> *final(addable) == *old(addable) && *final(reusable) == *old(reusable),
    {
        if *refinements >= 0 {
            return *refinements <= limit;
        }
        match open_cond.literal() {
            Some(literal) => {
                proof {
                    lemma_open_count(ctx@, self@, open_cond@);
                }
                if *addable < 0 {
                    let within = self.addable_steps(ctx, addable, &literal, open_cond, limit);
                    if !within {
                        return false;
                    }
                }
                if *addable > limit {
                    return false;
                }
                if *reusable < 0 {
                    let within = self.reusable_steps(ctx, reusable, &literal, open_cond, limit);
                    if !within {
                        return false;
                    }
                }
                let sum = if *addable < i32::MAX - *reusable {
                    *addable + *reusable
                } else {
                    i32::MAX
                };
                *refinements = sum;
                sum <= limit
            },
            None => {
                let mut dummy: Vec<Rc<Plan>> = Vec::new();
                assert(plan_views(dummy@) =~= seq![]);
                self.handle_open_condition(ctx, &mut dummy, open_cond);
                proof {
                    let found = open_plans(ctx@, self@, open_cond@);
                    assert(seq![] + found =~= found);
                    assert(plan_views(dummy@).len() == dummy@.len());
                }
                *refinements = cap(dummy.len());
                *refinements <= limit
            },
        }
    }
}

} // verus!
