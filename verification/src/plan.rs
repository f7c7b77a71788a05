//! Partial plans and their refinement for the classical (non-temporal,
//! non-numeric) subset.
//!
//! A [`Plan`] is an immutable node sharing its step/link/unsafe/open-condition
//! collections (persistent [`Chain`]s) with its parent, plus an
//! [`Rc<BinaryOrderings>`] and [`Rc<Bindings>`]. Refinement selects one flaw and
//! produces zero or more child plans.
use std::rc::Rc;

use vstd::prelude::*;

use crate::agenda::{add_goal, with_goal};
use crate::bindings::{unifier, Binding, Bindings};
use crate::chain::{self, elements, Chain};
use crate::effect::{Effect, EffectView};
use crate::flaws::{link_views, open_views, remove_open, remove_unsafe, removed, unsafe_views, OpenCondition};
use crate::formula::{find_term, has_variable, Formula, Literal, LiteralView};
use crate::orderings::{may_come_before, BinaryOrderings, StepTime};
use crate::plan_model::{
    absence, absence_plan, appended, disjunct_plans, effect_threats, first_plan, goal_plan, inequality_plans, is_threat, link_agenda, link_child,
    link_names, linked, name_of, named, named_all, names_for, new_step_plans, object_plan, object_plans, open_plans, ordered_plan, parting,
    reuse_by_step, reuse_plans, separated_plan, separation, separation_names, some_parted, some_separated, threat_unifier, threats_by, threats_to,
    touches_parameter, types_at, unsafe_plans, with_name, with_names, PlanView, Renaming,
};
use crate::search::{achiever_views, lemma_achievers, ContextView, SearchContext};
use crate::step::{step_views, StepActionView, StepTypes, StepTypesView, StepVarTypes, StepView};
use crate::terms::{Object, Term, Variable};
use crate::text::copy_vec;
use crate::types::Type;
use crate::typing::TypeContext;

pub use crate::flaws::{Flaw, Link, Unsafe};
pub use crate::step::{Step, StepAction};

verus! {

/// Id of the goal step.
pub const GOAL_ID: usize = usize::MAX;

/// Id of the initial step.
pub const INIT_ID: usize = 0;

/// A partial plan.
#[derive(Debug)]
pub struct Plan {
    pub steps: Option<Rc<Chain<Step>>>,
    pub num_steps: usize,
    pub links: Option<Rc<Chain<Link>>>,
    pub orderings: Rc<BinaryOrderings>,
    pub bindings: Rc<Bindings>,
    pub unsafes: Option<Rc<Chain<Unsafe>>>,
    pub open_conds: Option<Rc<Chain<OpenCondition>>>,
    /// The types of the variables made fresh during refinement.
    pub fresh: Rc<Vec<Type>>,
    /// Serial number.
    pub id: usize,
}

/// The number of elements of a chain, as far as it can be counted.
pub open spec fn counted(n: nat) -> usize {
    if n < usize::MAX {
        n as usize
    } else {
        usize::MAX
    }
}

fn count<T>(c: &Option<Rc<Chain<T>>>) -> (res: usize)
    ensures
        res == counted(elements(c).len()),
{
    let mut n: usize = 0;
    let mut cur: &Option<Rc<Chain<T>>> = c;
    while cur.is_some() && n < usize::MAX
        invariant
            n + elements(cur).len() == elements(c).len(),
        decreases elements(cur).len(),
    {
        match cur {
            Some(node) => {
                n = n + 1;
                cur = &node.tail;
            },
            None => {},
        }
    }
    n
}

/// The mathematical forms of a list of plans.
pub open spec fn plan_views(plans: Seq<Rc<Plan>>) -> Seq<PlanView> {
    Seq::new(plans.len(), |i: int| plans[i]@)
}

/// Whether every plan of a list is in order.
pub open spec fn all_wf(plans: Seq<Rc<Plan>>) -> bool {
    forall|i: int| 0 <= i < plans.len() ==> (#[trigger] plans[i]).wf()
}

proof fn lemma_plan_push(plans: Seq<Rc<Plan>>, p: Rc<Plan>)
    ensures
        plan_views(plans.push(p)) == plan_views(plans).push(p@),
        all_wf(plans) && p.wf() ==> all_wf(plans.push(p)),
{
    assert(plan_views(plans.push(p)) =~= plan_views(plans).push(p@));
    if all_wf(plans) && p.wf() {
        assert forall|i: int| 0 <= i < plans.push(p).len() implies (#[trigger] plans.push(p)[i]).wf() by {
            if i < plans.len() {
                assert(plans.push(p)[i] == plans[i]);
            }
        }
    }
}

/// The steps of a chain.
pub(crate) fn steps_of(c: &Option<Rc<Chain<Step>>>) -> (res: Vec<Step>)
    ensures
        res@ == elements(c),
{
    let mut res: Vec<Step> = Vec::new();
    let mut cur: &Option<Rc<Chain<Step>>> = c;
    while cur.is_some()
        invariant
            res@ + elements(cur) == elements(c),
        decreases elements(cur).len(),
    {
        match cur {
            Some(node) => {
                let ghost before = res@;
                let ghost rest = elements(cur);
                res.push(node.head.clone());
                cur = &node.tail;
                assert(before + rest =~= res@ + elements(cur));
            },
            None => {},
        }
    }
    assert(res@ + elements(cur) =~= res@);
    res
}

/// The variable types in effect with the given steps and fresh variables.
fn step_types(ctx: &SearchContext, steps: &Option<Rc<Chain<Step>>>, fresh: &Vec<Type>) -> (res: StepTypes)
    ensures
        res@ == types_at(ctx@, step_views(elements(steps)), fresh@),
{
    let res = StepTypes { steps: steps_of(steps), fresh_base: ctx.fresh_base, fresh: copy_vec(fresh) };
    assert(res@ =~= types_at(ctx@, step_views(elements(steps)), fresh@));
    res
}

proof fn lemma_step_views_cons(s: Step, rest: Seq<Step>)
    ensures
        step_views(seq![s] + rest) == seq![s@] + step_views(rest),
{
    assert(step_views(seq![s] + rest) =~= seq![s@] + step_views(rest));
}

/// Adds the threats to a link by the effects of one step.
fn effects_threaten(
    ctx: &TypeContext,
    unsafes: &mut Option<Rc<Chain<Unsafe>>>,
    link: &Link,
    s: &Step,
    orderings: &BinaryOrderings,
    bindings: &Bindings,
)
    requires
        ctx.wf(),
        orderings.wf(),
    ensures
        unsafe_views(elements(final(unsafes))) == effect_threats(
            ctx@,
            bindings@,
            orderings.pairs(),
            link@,
            s@,
            s@.action.effects.len(),
        ) + unsafe_views(elements(old(unsafes))),
{
    let ghost before = unsafe_views(elements(unsafes));
    let may = s.id != link.to_id && orderings.may_order(link.from_id, s.id) && orderings.may_order(s.id, link.to_id) && (
    link.condition.negative() || link.from_id != s.id);
    let mut i: usize = 0;
    assert(seq![] + before =~= before);
    while i < s.action.effects.len()
        invariant
            ctx.wf(),
            i <= s.action.effects@.len(),
            may == (s.id != link.to_id && may_come_before(orderings.pairs(), link.from_id as int, s.id as int) && may_come_before(
                orderings.pairs(),
                s.id as int,
                link.to_id as int,
            ) && (link@.condition.negative || link.from_id != s.id)),
            unsafe_views(elements(unsafes)) == effect_threats(ctx@, bindings@, orderings.pairs(), link@, s@, i as nat) + before,
        decreases s.action.effects@.len() - i,
    {
        let e = &s.action.effects[i];
        assert(s@.action.effects[i as int] == e@);
        let ghost found = effect_threats(ctx@, bindings@, orderings.pairs(), link@, s@, i as nat);
        if may && !e.link_condition.contradiction() && bindings.affects(ctx, &e.literal, s.id, &link.condition, link.to_id) {
            let u = Unsafe { link: link.clone(), step_id: s.id, effect: e.clone() };
            let ghost uv = u@;
            let rest = chain::share(unsafes);
            *unsafes = chain::cons(u, rest);
            proof {
                assert(unsafe_views(elements(unsafes)) =~= seq![uv] + (found + before));
                assert(seq![uv] + (found + before) =~= (seq![uv] + found) + before);
            }
        }
        i = i + 1;
    }
}

/// Adds the threats to a link by the steps of a plan.
pub fn link_threats(
    ctx: &TypeContext,
    unsafes: &mut Option<Rc<Chain<Unsafe>>>,
    link: &Link,
    steps: &Option<Rc<Chain<Step>>>,
    orderings: &BinaryOrderings,
    bindings: &Bindings,
)
    requires
        ctx.wf(),
        orderings.wf(),
    ensures
        unsafe_views(elements(final(unsafes))) == threats_to(
            ctx@,
            bindings@,
            orderings.pairs(),
            link@,
            step_views(elements(steps)),
            elements(steps).len(),
        ) + unsafe_views(elements(old(unsafes))),
{
    let ghost before = unsafe_views(elements(unsafes));
    let all = steps_of(steps);
    let ghost sv = step_views(all@);
    let mut i: usize = 0;
    assert(seq![] + before =~= before);
    while i < all.len()
        invariant
            ctx.wf(),
            orderings.wf(),
            sv == step_views(all@),
            i <= all@.len(),
            unsafe_views(elements(unsafes)) == threats_to(ctx@, bindings@, orderings.pairs(), link@, sv, i as nat) + before,
        decreases all@.len() - i,
    {
        let ghost found = threats_to(ctx@, bindings@, orderings.pairs(), link@, sv, i as nat);
        effects_threaten(ctx, unsafes, link, &all[i], orderings, bindings);
        proof {
            assert(sv[i as int] == all@[i as int]@);
            let mine = effect_threats(ctx@, bindings@, orderings.pairs(), link@, sv[i as int], sv[i as int].action.effects.len());
            assert(mine + (found + before) =~= (mine + found) + before);
        }
        i = i + 1;
    }
}

/// Adds the threats by a step to the links of a plan.
pub fn step_threats(
    ctx: &TypeContext,
    unsafes: &mut Option<Rc<Chain<Unsafe>>>,
    step: &Step,
    links: &Option<Rc<Chain<Link>>>,
    orderings: &BinaryOrderings,
    bindings: &Bindings,
)
    requires
        ctx.wf(),
        orderings.wf(),
    ensures
        unsafe_views(elements(final(unsafes))) == threats_by(
            ctx@,
            bindings@,
            orderings.pairs(),
            link_views(elements(links)),
            step@,
            elements(links).len(),
        ) + unsafe_views(elements(old(unsafes))),
{
    let ghost before = unsafe_views(elements(unsafes));
    let ghost all = link_views(elements(links));
    let mut cur: &Option<Rc<Chain<Link>>> = links;
    let ghost mut i: nat = 0;
    assert(seq![] + before =~= before);
    assert(all.skip(0) =~= all);
    while cur.is_some()
        invariant
            ctx.wf(),
            orderings.wf(),
            all == link_views(elements(links)),
            i <= all.len(),
            link_views(elements(cur)) == all.skip(i as int),
            unsafe_views(elements(unsafes)) == threats_by(ctx@, bindings@, orderings.pairs(), all, step@, i) + before,
        decreases elements(cur).len(),
    {
        match cur {
            Some(node) => {
                let ghost found = threats_by(ctx@, bindings@, orderings.pairs(), all, step@, i);
                assert(link_views(elements(cur)).len() > 0);
                assert(link_views(elements(cur))[0] == node.head@);
                assert(all.skip(i as int)[0] == all[i as int]);
                assert(all[i as int] == node.head@);
                effects_threaten(ctx, unsafes, &node.head, step, orderings, bindings);
                proof {
                    let mine = effect_threats(ctx@, bindings@, orderings.pairs(), all[i as int], step@, step@.action.effects.len());
                    assert(mine + (found + before) =~= (mine + found) + before);
                    assert(link_views(elements(&node.tail)) =~= link_views(elements(cur)).drop_first());
                    assert(all.skip(i as int).drop_first() =~= all.skip(i as int + 1));
                    i = i + 1;
                }
                cur = &node.tail;
            },
            None => {},
        }
    }
    assert(link_views(elements(cur)).len() == 0);
    assert(i == all.len());
}

/// Gives a parameter of a quantified effect a name, allocating a fresh variable
/// on first use; `false` if there is none left.
fn name_parameter(ctx: &SearchContext, types: &StepTypes, subst: &mut Vec<(Variable, Term)>, fresh: &mut Vec<Type>, p: Variable, step_id: usize) -> (res: bool)
    ensures
        ({
            let r = with_name(ctx@, types@, (Renaming { subst: old(subst)@, fresh: old(fresh)@ }), p, step_id);
            &&& res ==> final(subst)@ == r.subst && final(fresh)@ == r.fresh
            &&& !res ==> ctx@.fresh_base + r.fresh.len() > u32::MAX
        }),
{
    if find_term(subst, p).is_some() {
        return true;
    }
    if fresh.len() >= (u32::MAX - ctx.fresh_base) as usize {
        return false;
    }
    let v = Variable(ctx.fresh_base + fresh.len() as u32);
    let ty = types.var_type(p, step_id);
    subst.push((p, Term::Variable(v)));
    fresh.push(ty);
    true
}

/// Gives names to the effect's parameters that a unifier binds.
fn name_bound(
    ctx: &SearchContext,
    types: &StepTypes,
    subst: &mut Vec<(Variable, Term)>,
    fresh: &mut Vec<Type>,
    e: &Effect,
    step_id: usize,
    u: &Vec<Binding>,
) -> (res: bool)
    ensures
        ({
            let r = names_for(ctx@, types@, (Renaming { subst: old(subst)@, fresh: old(fresh)@ }), e@, step_id, u@, u@.len());
            &&& res ==> final(subst)@ == r.subst && final(fresh)@ == r.fresh
            &&& !res ==> ctx@.fresh_base + r.fresh.len() > u32::MAX
        }),
{
    let ghost start = Renaming { subst: subst@, fresh: fresh@ };
    let mut i: usize = 0;
    while i < u.len()
        invariant
            start == (Renaming { subst: old(subst)@, fresh: old(fresh)@ }),
            i <= u@.len(),
            (Renaming { subst: subst@, fresh: fresh@ }) == names_for(ctx@, types@, start, e@, step_id, u@, i as nat),
        decreases u@.len() - i,
    {
        let b = u[i];
        if b.var_id == step_id && has_variable(&e.parameters, b.var) {
            if !name_parameter(ctx, types, subst, fresh, b.var, step_id) {
                proof {
                    lemma_names_grow(ctx@, types@, start, e@, step_id, u@, (i + 1) as nat, u@.len());
                }
                return false;
            }
        }
        i = i + 1;
    }
    true
}

proof fn lemma_names_grow(
    cv: ContextView,
    vars: StepTypesView,
    r: Renaming,
    e: EffectView,
    step_id: usize,
    u: Seq<Binding>,
    n: nat,
    m: nat,
)
    requires
        n <= m,
    ensures
        names_for(cv, vars, r, e, step_id, u, n).fresh.len() <= names_for(cv, vars, r, e, step_id, u, m).fresh.len(),
    decreases m,
{
    if n < m {
        lemma_names_grow(cv, vars, r, e, step_id, u, n, (m - 1) as nat);
    }
}

proof fn lemma_with_names_grow(cv: ContextView, vars: StepTypesView, r: Renaming, ps: Seq<Variable>, id: usize, n: nat, m: nat)
    requires
        n <= m,
    ensures
        with_names(cv, vars, r, ps, id, n).fresh.len() <= with_names(cv, vars, r, ps, id, m).fresh.len(),
        r.fresh.len() <= with_names(cv, vars, r, ps, id, n).fresh.len(),
    decreases m,
{
    if n < m {
        lemma_with_names_grow(cv, vars, r, ps, id, n, (m - 1) as nat);
    } else if n > 0 {
        lemma_with_names_grow(cv, vars, r, ps, id, (n - 1) as nat, (m - 1) as nat);
    }
}

/// Gives names to all parameters of an effect.
fn name_all(
    ctx: &SearchContext,
    types: &StepTypes,
    subst: &mut Vec<(Variable, Term)>,
    fresh: &mut Vec<Type>,
    ps: &Vec<Variable>,
    step_id: usize,
) -> (res: bool)
    ensures
        ({
            let r = with_names(ctx@, types@, (Renaming { subst: old(subst)@, fresh: old(fresh)@ }), ps@, step_id, ps@.len());
            &&& res ==> final(subst)@ == r.subst && final(fresh)@ == r.fresh
            &&& !res ==> ctx@.fresh_base + r.fresh.len() > u32::MAX
        }),
{
    let ghost start = Renaming { subst: subst@, fresh: fresh@ };
    let mut i: usize = 0;
    while i < ps.len()
        invariant
            start == (Renaming { subst: old(subst)@, fresh: old(fresh)@ }),
            i <= ps@.len(),
            (Renaming { subst: subst@, fresh: fresh@ }) == with_names(ctx@, types@, start, ps@, step_id, i as nat),
        decreases ps@.len() - i,
    {
        if !name_parameter(ctx, types, subst, fresh, ps[i], step_id) {
            proof {
                lemma_with_names_grow(ctx@, types@, start, ps@, step_id, (i + 1) as nat, ps@.len());
            }
            return false;
        }
        i = i + 1;
    }
    true
}

/// A unifier with the effect's parameters renamed.
fn rename_bindings(e: &Effect, step_id: usize, subst: &Vec<(Variable, Term)>, u: &Vec<Binding>) -> (res: Vec<Binding>)
    ensures
        res@ == named_all(e@, step_id, subst@, u@, u@.len()),
{
    let mut res: Vec<Binding> = Vec::new();
    let mut i: usize = 0;
    while i < u.len()
        invariant
            i <= u@.len(),
            res@.len() == i,
            forall|k: int| 0 <= k < i ==> #[trigger] res@[k] == named(e@, step_id, subst@, u@[k]),
        decreases u@.len() - i,
    {
        let b = u[i];
        let mut c = b;
        if b.var_id == step_id && has_variable(&e.parameters, b.var) {
            match find_term(subst, b.var) {
                Some(Term::Variable(v)) => {
                    c = Binding::new(v, b.var_id, b.term, b.term_id, true);
                },
                _ => {},
            }
        }
        res.push(c);
        i = i + 1;
    }
    assert(res@ =~= named_all(e@, step_id, subst@, u@, u@.len()));
    res
}

/// Builds a separation inequality `var@var_id != term@term_id`. The left side
/// is always a variable, so constant/constant cases cannot arise.
fn make_inequality(b: &Binding) -> (res: Rc<Formula>)
    ensures
        res@ == parting(*b),
{
    Rc::new(
        Formula::Inequality {
            left: Term::Variable(b.var),
            left_id: Some(b.var_id),
            right: b.term,
            right_id: Some(b.term_id),
        },
    )
}

impl Literal {
    /// The literal asserted by an effect.
    pub fn from_effect(effect: &Effect) -> (res: Literal)
        ensures
            res@ == effect@.literal,
    {
        effect.literal.clone()
    }
}

impl Plan {
    pub open spec fn view(&self) -> PlanView {
        PlanView {
            steps: step_views(elements(&self.steps)),
            num_steps: self.num_steps as nat,
            links: link_views(elements(&self.links)),
            order: self.orderings.pairs(),
            classes: self.bindings@,
            high: self.bindings.high(),
            unsafes: unsafe_views(elements(&self.unsafes)),
            opens: open_views(elements(&self.open_conds)),
            fresh: self.fresh@,
        }
    }

    pub open spec fn wf(&self) -> bool {
        self.orderings.wf() && self.num_steps <= usize::MAX / 4
    }

    /// Number of real steps.
    pub fn num_steps(&self) -> (res: usize)
        ensures
            res == self@.num_steps,
    {
        self.num_steps
    }

    pub fn num_open_conds(&self) -> (res: usize)
        ensures
            res == counted(self@.opens.len()),
    {
        count(&self.open_conds)
    }

    pub fn num_unsafes(&self) -> (res: usize)
        ensures
            res == counted(self@.unsafes.len()),
    {
        count(&self.unsafes)
    }

    pub fn serial_no(&self) -> (res: usize)
        ensures
            res == self.id,
    {
        self.id
    }

    pub fn unsafes(&self) -> (res: &Option<Rc<Chain<Unsafe>>>)
        ensures
            unsafe_views(elements(res)) == self@.unsafes,
            *res == self.unsafes,
    {
        &self.unsafes
    }

    pub fn open_conds(&self) -> (res: &Option<Rc<Chain<OpenCondition>>>)
        ensures
            open_views(elements(res)) == self@.opens,
            *res == self.open_conds,
    {
        &self.open_conds
    }

    pub fn complete(&self) -> (res: bool)
        ensures
            res == self@.is_complete(),
    {
        self.unsafes.is_none() && self.open_conds.is_none()
    }

    /// The variable types in effect at the plan.
    pub fn types(&self, ctx: &SearchContext) -> (res: StepTypes)
        ensures
            res@ == types_at(ctx@, self@.steps, self@.fresh),
    {
        step_types(ctx, &self.steps, &self.fresh)
    }

    /// Another handle on the plan's parts.
    fn share(&self) -> (res: Plan)
        ensures
            res == *self,
    {
        Plan {
            steps: chain::share(&self.steps),
            num_steps: self.num_steps,
            links: chain::share(&self.links),
            orderings: self.orderings.clone(),
            bindings: self.bindings.clone(),
            unsafes: chain::share(&self.unsafes),
            open_conds: chain::share(&self.open_conds),
            fresh: self.fresh.clone(),
            id: self.id,
        }
    }

    /// The plan with a goal of a step added, in place of its open conditions.
    fn with_goal(&self, ctx: &SearchContext, opens: Option<Rc<Chain<OpenCondition>>>, goal: &Rc<Formula>, step_id: usize) -> (res: Option<Plan>)
        requires
            ctx.wf(),
            self.wf(),
        ensures
            match goal_plan(ctx@, self@, open_views(elements(&opens)), goal@, step_id) {
                None => res is None,
                Some(v) => res matches Some(p) && p.wf() && p@ == v && p.id == 0,
            },
    {
        let types = self.types(ctx);
        let tctx = ctx.type_ctx(&types);
        let mut open_conds = opens;
        let mut new_bindings: Vec<Binding> = Vec::new();
        assert(new_bindings@ =~= seq![]);
        if !add_goal(&tctx, &mut open_conds, &mut new_bindings, goal, step_id) {
            return None;
        }
        match self.bindings.add(&tctx, &new_bindings, false) {
            None => None,
            Some(bindings) => {
                let mut child = self.share();
                child.open_conds = open_conds;
                child.bindings = bindings;
                child.id = 0;
                assert(child@ =~= goal_plan(ctx@, self@, open_views(elements(&opens)), goal@, step_id)->0);
                Some(child)
            },
        }
    }

    /// Returns the initial plan, or `None` if the goal is inconsistent.
    pub fn make_initial_plan(ctx: &SearchContext) -> (res: Option<Rc<Plan>>)
        requires
            ctx.wf(),
        ensures
            match first_plan(ctx@) {
                None => res is None,
                Some(v) => res matches Some(p) && p.wf() && p@ == v && p.id == 0,
            },
    {
        let goal_step = Step { id: GOAL_ID, action: ctx.goal_action.clone() };
        let init_step = Step { id: INIT_ID, action: ctx.init_action.clone() };
        let ghost gv = goal_step@;
        let ghost iv = init_step@;
        let last = chain::cons(goal_step, None);
        let steps = chain::cons(init_step, last);
        let orderings = Rc::new(BinaryOrderings::new());
        let empty = Plan {
            steps,
            num_steps: 0,
            links: None,
            orderings,
            bindings: Bindings::empty(),
            unsafes: None,
            open_conds: None,
            fresh: Rc::new(Vec::new()),
            id: 0,
        };
        proof {
            crate::orderings::lemma_pairs(&*orderings);
            assert(empty@.steps =~= seq![iv, gv]);
            assert(empty@.links =~= seq![]);
            assert(empty@.unsafes =~= seq![]);
            assert(empty@.opens =~= seq![]);
            assert(empty@.fresh =~= seq![]);
            assert(empty@.classes =~= seq![]);
            assert forall|q: (int, int)| !(#[trigger] empty@.order.contains(q)) by {
                if empty@.order.contains(q) {
                    assert(orderings.pairs().contains(q));
                }
            }
            assert(empty@.order =~= Set::empty());
        }
        match empty.with_goal(ctx, None, &ctx.goal_action.precondition, GOAL_ID) {
            None => None,
            Some(p) => Some(Rc::new(p)),
        }
    }
}

/// The steps of a plan with a step that may be new.
spec fn steps_with(p: PlanView, s: StepView, is_new: bool) -> Seq<StepView> {
    if is_new {
        seq![s] + p.steps
    } else {
        p.steps
    }
}

impl Plan {
    /// The chain of steps with a step that may be new.
    fn steps_and(&self, step: &Step, is_new: bool) -> (res: Option<Rc<Chain<Step>>>)
        ensures
            step_views(elements(&res)) == steps_with(self@, step@, is_new),
    {
        let steps = chain::share(&self.steps);
        if is_new {
            let copy = step.clone();
            proof {
                lemma_step_views_cons(copy, elements(&self.steps));
            }
            chain::cons(copy, steps)
        } else {
            steps
        }
    }

    /// Supports an open condition with an effect of a step, if they unify.
    fn new_link(&self, ctx: &SearchContext, plans: &mut Vec<Rc<Plan>>, step: &Step, is_new: bool, effect_idx: usize, open_cond: &OpenCondition)
        requires
            ctx.wf(),
            self.wf(),
            is_new ==> step.id == self.num_steps + 1,
            effect_idx < step.action.effects@.len(),
            open_cond@.as_literal() is Some,
            all_wf(old(plans)@),
        ensures
            all_wf(final(plans)@),
            plan_views(final(plans)@) == appended(
                plan_views(old(plans)@),
                link_child(ctx@, self@, step@, is_new, effect_idx as int, open_cond@),
            ),
    {
        let steps = self.steps_and(step, is_new);
        let types = step_types(ctx, &steps, &self.fresh);
        let tctx = ctx.type_ctx(&types);
        let effect = &step.action.effects[effect_idx];
        assert(step@.action.effects[effect_idx as int] == effect@);
        let mut mgu: Vec<Binding> = Vec::new();
        assert(mgu@ =~= seq![]);
        match open_cond.literal() {
            None => {},
            Some(literal) => {
                if self.bindings.unify_mgu(&tctx, &mut mgu, &effect.literal, step.id, &literal, open_cond.step_id) {
                    proof {
                        assert(seq![] + unifier(tctx@, self@.classes, effect@.literal.atom, step.id, literal@.atom, open_cond.step_id)
                            =~= mgu@);
                    }
                    self.make_link(ctx, plans, step, is_new, effect, open_cond, &mgu);
                }
            },
        }
    }

    /// The renaming that a link from an effect takes.
    fn link_renaming(
        &self,
        ctx: &SearchContext,
        steps: &Option<Rc<Chain<Step>>>,
        step: &Step,
        effect: &Effect,
        unifier: &Vec<Binding>,
        subst: &mut Vec<(Variable, Term)>,
        fresh: &mut Vec<Type>,
    ) -> (res: bool)
        requires
            old(subst)@ == Seq::<(Variable, Term)>::empty(),
            old(fresh)@ == self@.fresh,
        ensures
            ({
                let r = link_names(ctx@, self@, step_views(elements(steps)), step@, effect@, unifier@);
                &&& res ==> final(subst)@ == r.subst && final(fresh)@ == r.fresh
                &&& !res ==> ctx@.fresh_base + r.fresh.len() > u32::MAX
            }),
    {
        let types = step_types(ctx, steps, &self.fresh);
        let ghost vars = types@;
        let ghost start = Renaming { subst: seq![], fresh: self@.fresh };
        let ghost bound = names_for(ctx@, vars, start, effect@, step.id, unifier@, unifier@.len());
        assert(subst@ =~= seq![]);
        let goal = Formula::and(effect.condition.clone(), effect.link_condition.clone());
        if !name_bound(ctx, &types, subst, fresh, effect, step.id, unifier) {
            proof {
                lemma_with_names_grow(ctx@, vars, bound, effect@.parameters, step.id, effect@.parameters.len(), effect@.parameters.len());
            }
            return false;
        }
        assert((Renaming { subst: subst@, fresh: fresh@ }) =~= bound);
        if !goal.tautology() {
            return name_all(ctx, &types, subst, fresh, &effect.parameters, step.id);
        }
        true
    }

    /// Adds a child plan in which an open condition is supported by an effect of
    /// a step. Universally-quantified effect parameters are renamed to fresh
    /// variables, so binding one instance (to establish this link) leaves the
    /// original parameter free for other instances and for threat detection.
    fn make_link(
        &self,
        ctx: &SearchContext,
        plans: &mut Vec<Rc<Plan>>,
        step: &Step,
        is_new: bool,
        effect: &Effect,
        open_cond: &OpenCondition,
        unifier: &Vec<Binding>,
    )
        requires
            ctx.wf(),
            self.wf(),
            is_new ==> step.id == self.num_steps + 1,
            open_cond@.as_literal() is Some,
            all_wf(old(plans)@),
        ensures
            all_wf(final(plans)@),
            plan_views(final(plans)@) == appended(
                plan_views(old(plans)@),
                linked(ctx@, self@, step@, is_new, effect@, open_cond@, unifier@),
            ),
    {
        let ghost target = linked(ctx@, self@, step@, is_new, effect@, open_cond@, unifier@);
        let new_steps = self.steps_and(step, is_new);
        let ghost steps = steps_with(self@, step@, is_new);
        let mut subst: Vec<(Variable, Term)> = Vec::new();
        let mut fresh = copy_vec(&self.fresh);
        assert(subst@ =~= Seq::empty());
        let ghost r = link_names(ctx@, self@, steps, step@, effect@, unifier@);
        if !self.link_renaming(ctx, &new_steps, step, effect, unifier, &mut subst, &mut fresh) {
            return;
        }
        if fresh.len() > (u32::MAX - ctx.fresh_base) as usize {
            return;
        }
        let types = step_types(ctx, &new_steps, &fresh);
        let tctx = ctx.type_ctx(&types);
        let ghost t = ctx@.typing(types_at(ctx@, steps, r.fresh));

        let mut new_bindings = rename_bindings(effect, step.id, &subst, unifier);
        let mut new_open_conds = remove_open(&self.open_conds, open_cond);

        // The effect's condition together with its link condition becomes a goal,
        // and so does the precondition of a new step.
        let cond_goal = Formula::and(effect.condition.clone(), effect.link_condition.clone());
        let cond_goal = cond_goal.substitute(&subst);
        if !add_goal(&tctx, &mut new_open_conds, &mut new_bindings, &cond_goal, step.id) {
            return;
        }
        if is_new {
            if !add_goal(&tctx, &mut new_open_conds, &mut new_bindings, &step.action.precondition, step.id) {
                return;
            }
        }
        let ghost a = link_agenda(t, self@, step@, is_new, effect@, open_cond@, unifier@, r.subst)->0;
        assert(a.opens == open_views(elements(&new_open_conds)));
        assert(a.binds == new_bindings@);
        let bindings = match self.bindings.add(&tctx, &new_bindings, false) {
            Some(b) => b,
            None => {
                return;
            },
        };
        let new_orderings = if step.id == INIT_ID {
            self.orderings.clone()
        } else {
            match self.orderings.with_order(step.id, open_cond.step_id) {
                Some(o) => o,
                None => {
                    return;
                },
            }
        };
        let condition = match open_cond.literal() {
            Some(l) => l,
            None => {
                return;
            },
        };
        let link = Link {
            from_id: step.id,
            effect_time: StepTime::AtEnd,
            to_id: open_cond.step_id,
            condition,
            condition_time: open_cond.when,
        };
        let ghost lv = link@;

        // Threats to the new link, and by a new step to the links there are.
        let mut new_unsafes = chain::share(&self.unsafes);
        link_threats(&tctx, &mut new_unsafes, &link, &new_steps, &new_orderings, &bindings);
        if is_new {
            step_threats(&tctx, &mut new_unsafes, step, &self.links, &new_orderings, &bindings);
        }
        let old_links = chain::share(&self.links);
        let new_links = chain::cons(link, old_links);
        let num_steps = if is_new {
            self.num_steps + 1
        } else {
            self.num_steps
        };
        let child = Plan {
            steps: new_steps,
            num_steps,
            links: new_links,
            orderings: new_orderings,
            bindings,
            unsafes: new_unsafes,
            open_conds: new_open_conds,
            fresh: Rc::new(fresh),
            id: 0,
        };
        proof {
            assert(child@.links =~= seq![lv] + self@.links);
            assert(target is Some);
            assert(child@ =~= target->0);
            lemma_plan_push(plans@, Rc::new(child));
        }
        plans.push(Rc::new(child));
    }
}

proof fn lemma_appended(base: Seq<PlanView>, s: Seq<PlanView>, c: Option<PlanView>)
    ensures
        appended(base + s, c) == base + appended(s, c),
{
    if c is Some {
        assert((base + s).push(c->0) =~= base + s.push(c->0));
    }
}

impl Plan {
    /// Supports an open condition with a new step for each achiever.
    pub(crate) fn add_step(&self, ctx: &SearchContext, plans: &mut Vec<Rc<Plan>>, open_cond: &OpenCondition, achievers: &Vec<(Rc<StepAction>, usize)>)
        requires
            ctx.wf(),
            self.wf(),
            open_cond@.as_literal() is Some,
            forall|i: int| 0 <= i < achievers@.len() ==> (#[trigger] achievers@[i]).1 < achievers@[i].0.effects@.len(),
            all_wf(old(plans)@),
        ensures
            all_wf(final(plans)@),
            plan_views(final(plans)@) == plan_views(old(plans)@) + new_step_plans(
                ctx@,
                self@,
                open_cond@,
                achiever_views(achievers@),
                achievers@.len(),
            ),
    {
        let ghost base = plan_views(plans@);
        let ghost all = achiever_views(achievers@);
        let mut i: usize = 0;
        assert(base + seq![] =~= base);
        while i < achievers.len()
            invariant
                ctx.wf(),
                self.wf(),
                open_cond@.as_literal() is Some,
                forall|k: int| 0 <= k < achievers@.len() ==> (#[trigger] achievers@[k]).1 < achievers@[k].0.effects@.len(),
                all_wf(plans@),
                all == achiever_views(achievers@),
                i <= achievers@.len(),
                plan_views(plans@) == base + new_step_plans(ctx@, self@, open_cond@, all, i as nat),
            decreases achievers@.len() - i,
        {
            let action = &achievers[i].0;
            let effect_idx = achievers[i].1;
            let ghost found = new_step_plans(ctx@, self@, open_cond@, all, i as nat);
            assert(all[i as int] == (action@, effect_idx as int));
            if !action.synthetic() {
                let step = Step { id: self.num_steps + 1, action: action.clone() };
                proof {
                    lemma_appended(base, found, link_child(ctx@, self@, step@, true, effect_idx as int, open_cond@));
                }
                self.new_link(ctx, plans, &step, true, effect_idx, open_cond);
            }
            i = i + 1;
        }
    }

    /// Supports an open condition with a step of the plan, for each achiever.
    fn reuse_one(
        &self,
        ctx: &SearchContext,
        plans: &mut Vec<Rc<Plan>>,
        open_cond: &OpenCondition,
        step: &Step,
        achievers: &Vec<(Rc<StepAction>, usize)>,
    )
        requires
            ctx.wf(),
            self.wf(),
            open_cond@.as_literal() is Some,
            all_wf(old(plans)@),
        ensures
            all_wf(final(plans)@),
            plan_views(final(plans)@) == plan_views(old(plans)@) + reuse_by_step(
                ctx@,
                self@,
                open_cond@,
                step@,
                achiever_views(achievers@),
                achievers@.len(),
            ),
    {
        let ghost base = plan_views(plans@);
        let ghost all = achiever_views(achievers@);
        let may = self.orderings.may_order(step.id, open_cond.step_id);
        let mut i: usize = 0;
        assert(base + seq![] =~= base);
        while i < achievers.len()
            invariant
                ctx.wf(),
                self.wf(),
                open_cond@.as_literal() is Some,
                all_wf(plans@),
                may == may_come_before(self@.order, step.id as int, open_cond.step_id as int),
                all == achiever_views(achievers@),
                i <= achievers@.len(),
                plan_views(plans@) == base + reuse_by_step(ctx@, self@, open_cond@, step@, all, i as nat),
            decreases achievers@.len() - i,
        {
            let action = &achievers[i].0;
            let effect_idx = achievers[i].1;
            let ghost found = reuse_by_step(ctx@, self@, open_cond@, step@, all, i as nat);
            assert(all[i as int] == (action@, effect_idx as int));
            if action.id == step.action.id && may && effect_idx < step.action.effects.len() {
                proof {
                    lemma_appended(base, found, link_child(ctx@, self@, step@, false, effect_idx as int, open_cond@));
                }
                self.new_link(ctx, plans, step, false, effect_idx, open_cond);
            }
            i = i + 1;
        }
    }

    /// Supports an open condition with the steps of the plan that may come before
    /// it.
    pub(crate) fn reuse_step(&self, ctx: &SearchContext, plans: &mut Vec<Rc<Plan>>, open_cond: &OpenCondition, achievers: &Vec<(Rc<StepAction>, usize)>)
        requires
            ctx.wf(),
            self.wf(),
            open_cond@.as_literal() is Some,
            all_wf(old(plans)@),
        ensures
            all_wf(final(plans)@),
            plan_views(final(plans)@) == plan_views(old(plans)@) + reuse_plans(
                ctx@,
                self@,
                open_cond@,
                achiever_views(achievers@),
                self@.steps.len(),
            ),
    {
        let ghost base = plan_views(plans@);
        let ghost all = achiever_views(achievers@);
        let steps = steps_of(&self.steps);
        let mut i: usize = 0;
        assert(base + seq![] =~= base);
        while i < steps.len()
            invariant
                ctx.wf(),
                self.wf(),
                open_cond@.as_literal() is Some,
                all_wf(plans@),
                all == achiever_views(achievers@),
                step_views(steps@) == self@.steps,
                i <= steps@.len(),
                plan_views(plans@) == base + reuse_plans(ctx@, self@, open_cond@, all, i as nat),
            decreases steps@.len() - i,
        {
            let ghost found = reuse_plans(ctx@, self@, open_cond@, all, i as nat);
            self.reuse_one(ctx, plans, open_cond, &steps[i], achievers);
            proof {
                assert(self@.steps[i as int] == steps@[i as int]@);
                let mine = reuse_by_step(ctx@, self@, open_cond@, self@.steps[i as int], all, all.len());
                assert((base + found) + mine =~= base + (found + mine));
            }
            i = i + 1;
        }
    }

    /// What keeps an atom from the initial facts; `None` if it is one of them.
    fn absence_goal(&self, ctx: &SearchContext, tctx: &TypeContext, literal: &Literal, step_id: usize) -> (res: Option<Rc<Formula>>)
        requires
            ctx.wf(),
            tctx.wf(),
        ensures
            match absence(tctx@, self@.classes, ctx@.init.effects, literal@.atom, step_id, ctx@.init.effects.len()) {
                None => res is None,
                Some(f) => res matches Some(g) && g@ == f,
            },
    {
        let positive = Literal::Atom(literal.atom().clone());
        let facts = &ctx.init_action.effects;
        let ghost fv = ctx@.init.effects;
        let mut goals: Rc<Formula> = Rc::new(Formula::True);
        let mut i: usize = 0;
        while i < facts.len()
            invariant
                tctx.wf(),
                fv == ctx@.init.effects,
                fv == crate::effect::effect_views(facts@),
                positive@ == (LiteralView { negative: false, atom: literal@.atom }),
                i <= facts@.len(),
                absence(tctx@, self@.classes, fv, literal@.atom, step_id, i as nat) == Some(goals@),
            decreases facts@.len() - i,
        {
            let e = &facts[i];
            assert(fv[i as int] == e@);
            let mut mgu: Vec<Binding> = Vec::new();
            assert(mgu@ =~= seq![]);
            if self.bindings.unify_mgu(tctx, &mut mgu, &e.literal, INIT_ID, &positive, step_id) {
                let ghost u = unifier(tctx@, self@.classes, e@.literal.atom, INIT_ID, literal@.atom, step_id);
                assert(seq![] + u =~= mgu@);
                if mgu.len() == 0 {
                    // Impossible to separate goal from init.
                    proof {
                        lemma_absence_none(tctx@, self@.classes, fv, literal@.atom, step_id, (i + 1) as nat, fv.len());
                    }
                    return None;
                }
                let parted = part_some(&mgu);
                goals = Formula::and(goals, parted);
            }
            i = i + 1;
        }
        Some(goals)
    }

    /// Adds a child plan with a closed-world link for a negative literal: the
    /// atom is kept from the initial facts.
    pub(crate) fn new_cw_link(&self, ctx: &SearchContext, plans: &mut Vec<Rc<Plan>>, open_cond: &OpenCondition)
        requires
            ctx.wf(),
            self.wf(),
            open_cond@.as_literal() is Some,
            all_wf(old(plans)@),
        ensures
            all_wf(final(plans)@),
            plan_views(final(plans)@) == appended(plan_views(old(plans)@), absence_plan(ctx@, self@, open_cond@)),
    {
        let types = self.types(ctx);
        let tctx = ctx.type_ctx(&types);
        let literal = match open_cond.literal() {
            Some(l) => l,
            None => {
                return;
            },
        };
        let goals = match self.absence_goal(ctx, &tctx, &literal, open_cond.step_id) {
            Some(g) => g,
            None => {
                return;
            },
        };
        let mut new_open_conds = remove_open(&self.open_conds, open_cond);
        let mut new_bindings: Vec<Binding> = Vec::new();
        assert(new_bindings@ =~= seq![]);
        if !add_goal(&tctx, &mut new_open_conds, &mut new_bindings, &goals, INIT_ID) {
            return;
        }
        match self.bindings.add(&tctx, &new_bindings, false) {
            None => {},
            Some(bindings) => {
                let link = Link {
                    from_id: INIT_ID,
                    effect_time: StepTime::AtEnd,
                    to_id: open_cond.step_id,
                    condition: literal,
                    condition_time: open_cond.when,
                };
                let ghost lv = link@;
                let mut new_unsafes = chain::share(&self.unsafes);
                link_threats(&tctx, &mut new_unsafes, &link, &self.steps, &self.orderings, &bindings);
                let mut child = self.share();
                let old_links = chain::share(&self.links);
                child.links = chain::cons(link, old_links);
                child.bindings = bindings;
                child.unsafes = new_unsafes;
                child.open_conds = new_open_conds;
                child.id = 0;
                proof {
                    assert(child@.links =~= seq![lv] + self@.links);
                    assert(child@ =~= absence_plan(ctx@, self@, open_cond@)->0);
                    lemma_plan_push(plans@, Rc::new(child));
                }
                plans.push(Rc::new(child));
            },
        }
    }

    /// One child plan for each disjunct of an open disjunction.
    fn handle_disjunction(&self, ctx: &SearchContext, plans: &mut Vec<Rc<Plan>>, open_cond: &OpenCondition, disjuncts: &Vec<Rc<Formula>>)
        requires
            ctx.wf(),
            self.wf(),
            all_wf(old(plans)@),
        ensures
            all_wf(final(plans)@),
            plan_views(final(plans)@) == plan_views(old(plans)@) + disjunct_plans(
                ctx@,
                self@,
                open_cond@,
                crate::formula::forms(disjuncts@),
                disjuncts@.len(),
            ),
    {
        let ghost base = plan_views(plans@);
        let ghost ds = crate::formula::forms(disjuncts@);
        let mut i: usize = 0;
        assert(base + seq![] =~= base);
        while i < disjuncts.len()
            invariant
                ctx.wf(),
                self.wf(),
                all_wf(plans@),
                ds == crate::formula::forms(disjuncts@),
                i <= disjuncts@.len(),
                plan_views(plans@) == base + disjunct_plans(ctx@, self@, open_cond@, ds, i as nat),
            decreases disjuncts@.len() - i,
        {
            let ghost found = disjunct_plans(ctx@, self@, open_cond@, ds, i as nat);
            let opens = remove_open(&self.open_conds, open_cond);
            assert(ds[i as int] == disjuncts@[i as int]@);
            proof {
                lemma_appended(
                    base,
                    found,
                    goal_plan(ctx@, self@, removed(self@.opens, open_cond@), ds[i as int], open_cond.step_id),
                );
            }
            match self.with_goal(ctx, opens, &disjuncts[i], open_cond.step_id) {
                Some(child) => {
                    proof {
                        lemma_plan_push(plans@, Rc::new(child));
                    }
                    plans.push(Rc::new(child));
                },
                None => {},
            }
            i = i + 1;
        }
    }

    /// One child plan for each object that one of two variables may stand for,
    /// with the other kept from it.
    fn assign_objects(&self, ctx: &SearchContext, plans: &mut Vec<Rc<Plan>>, open_cond: &OpenCondition, v: Variable, w: Variable, os: &Vec<Object>)
        requires
            ctx.wf(),
            self.wf(),
            all_wf(old(plans)@),
        ensures
            all_wf(final(plans)@),
            plan_views(final(plans)@) == plan_views(old(plans)@) + object_plans(ctx@, self@, open_cond@, v, w, os@, os@.len()),
    {
        let ghost base = plan_views(plans@);
        let types = self.types(ctx);
        let tctx = ctx.type_ctx(&types);
        let step_id = open_cond.step_id;
        let mut i: usize = 0;
        assert(base + seq![] =~= base);
        while i < os.len()
            invariant
                tctx.wf(),
                tctx@ == self@.typing(ctx@),
                self.wf(),
                step_id == open_cond.step_id,
                all_wf(plans@),
                i <= os@.len(),
                plan_views(plans@) == base + object_plans(ctx@, self@, open_cond@, v, w, os@, i as nat),
            decreases os@.len() - i,
        {
            let ghost found = object_plans(ctx@, self@, open_cond@, v, w, os@, i as nat);
            let o = os[i];
            let mut bs: Vec<Binding> = Vec::new();
            bs.push(Binding::new(v, step_id, Term::Object(o), 0, true));
            bs.push(Binding::new(w, step_id, Term::Object(o), 0, false));
            proof {
                assert(bs@ =~= seq![
                    Binding { var: v, var_id: step_id, term: Term::Object(o), term_id: 0, equality: true },
                    Binding { var: w, var_id: step_id, term: Term::Object(o), term_id: 0, equality: false },
                ]);
                lemma_appended(base, found, object_plan(ctx@, self@, open_cond@, v, w, o));
            }
            match self.bindings.add(&tctx, &bs, false) {
                Some(bindings) => {
                    let mut child = self.share();
                    child.bindings = bindings;
                    child.open_conds = remove_open(&self.open_conds, open_cond);
                    child.id = 0;
                    proof {
                        assert(child@ =~= object_plan(ctx@, self@, open_cond@, v, w, o)->0);
                        lemma_plan_push(plans@, Rc::new(child));
                    }
                    plans.push(Rc::new(child));
                },
                None => {},
            }
            i = i + 1;
        }
    }

    /// Resolves an open inequality of two variables.
    fn handle_inequality(&self, ctx: &SearchContext, plans: &mut Vec<Rc<Plan>>, open_cond: &OpenCondition, v: Variable, w: Variable)
        requires
            ctx.wf(),
            self.wf(),
            all_wf(old(plans)@),
        ensures
            all_wf(final(plans)@),
            plan_views(final(plans)@) == plan_views(old(plans)@) + inequality_plans(ctx@, self@, open_cond@, v, w),
    {
        let types = self.types(ctx);
        let tctx = ctx.type_ctx(&types);
        let d1 = self.bindings.domain(&tctx, v, open_cond.step_id);
        let d2 = self.bindings.domain(&tctx, w, open_cond.step_id);
        if d1.len() < d2.len() {
            self.assign_objects(ctx, plans, open_cond, v, w, &d1);
        } else {
            self.assign_objects(ctx, plans, open_cond, w, v, &d2);
        }
    }

    /// Adds the plans that resolve an open condition.
    pub fn handle_open_condition(&self, ctx: &SearchContext, plans: &mut Vec<Rc<Plan>>, open_cond: &OpenCondition)
        requires
            ctx.wf(),
            self.wf(),
            all_wf(old(plans)@),
        ensures
            all_wf(final(plans)@),
            plan_views(final(plans)@) == plan_views(old(plans)@) + open_plans(ctx@, self@, open_cond@),
    {
        let ghost base = plan_views(plans@);
        match open_cond.literal() {
            Some(literal) => {
                let achievers = ctx.literal_achievers(&literal);
                proof {
                    lemma_achievers(ctx@, literal@);
                    assert forall|i: int| 0 <= i < achievers@.len() implies (#[trigger] achievers@[i]).1 < achievers@[i].0.effects@.len() by {
                        assert(achiever_views(achievers@)[i] == (achievers@[i].0@, achievers@[i].1 as int));
                        assert(self::achievers_len(achiever_views(achievers@)[i]));
                    }
                }
                self.add_step(ctx, plans, open_cond, &achievers);
                self.reuse_step(ctx, plans, open_cond, &achievers);
                proof {
                    let av = achiever_views(achievers@);
                    let a = new_step_plans(ctx@, self@, open_cond@, av, av.len());
                    let b = reuse_plans(ctx@, self@, open_cond@, av, self@.steps.len());
                    assert((base + a) + b =~= base + (a + b));
                    lemma_appended(base, a + b, absence_plan(ctx@, self@, open_cond@));
                }
                if literal.negative() {
                    self.new_cw_link(ctx, plans, open_cond);
                }
            },
            None => match open_cond.inequality() {
                Some((left, right)) => {
                    match (left, right) {
                        (Term::Variable(v), Term::Variable(w)) => self.handle_inequality(ctx, plans, open_cond, v, w),
                        _ => {
                            assert(base + seq![] =~= base);
                        },
                    }
                },
                None => match open_cond.disjunction() {
                    Some(ds) => self.handle_disjunction(ctx, plans, open_cond, ds),
                    None => {
                        assert(base + seq![] =~= base);
                    },
                },
            },
        }
    }
}

/// Whether an achiever names an effect of its action.
pub open spec fn achievers_len(x: (StepActionView, int)) -> bool {
    0 <= x.1 < x.0.effects.len()
}

proof fn lemma_absence_none(
    t: crate::typing::Typing,
    sets: Seq<crate::bindings::Class>,
    facts: Seq<EffectView>,
    atom: crate::formula::AtomView,
    id: usize,
    n: nat,
    m: nat,
)
    requires
        n <= m,
        absence(t, sets, facts, atom, id, n) is None,
    ensures
        absence(t, sets, facts, atom, id, m) is None,
    decreases m,
{
    if n < m {
        lemma_absence_none(t, sets, facts, atom, id, n, (m - 1) as nat);
    }
}

/// Some of a list of bindings keep their sides apart.
fn part_some(u: &Vec<Binding>) -> (res: Rc<Formula>)
    ensures
        res@ == some_parted(u@, u@.len()),
{
    let mut res: Rc<Formula> = Rc::new(Formula::False);
    let mut i: usize = 0;
    while i < u.len()
        invariant
            i <= u@.len(),
            res@ == some_parted(u@, i as nat),
        decreases u@.len() - i,
    {
        res = Formula::or(res, make_inequality(&u[i]));
        i = i + 1;
    }
    res
}

impl Plan {
    /// Some of the bindings, of those that may, keep their sides apart.
    fn separate_some(&self, u: &Unsafe, bs: &Vec<Binding>) -> (res: Rc<Formula>)
        ensures
            res@ == some_separated(self@, u@, bs@, bs@.len()),
    {
        let mut goal: Rc<Formula> = Rc::new(Formula::False);
        let mut i: usize = 0;
        while i < bs.len()
            invariant
                i <= bs@.len(),
                goal@ == some_separated(self@, u@, bs@, i as nat),
            decreases bs@.len() - i,
        {
            let b = bs[i];
            let by_var = b.var_id == u.step_id && has_variable(&u.effect.parameters, b.var);
            let by_term = match b.term {
                Term::Variable(v) => b.term_id == u.step_id && has_variable(&u.effect.parameters, v),
                Term::Object(_) => false,
            };
            assert((by_var || by_term) == touches_parameter(u@.effect, u.step_id, b));
            if !by_var && !by_term && self.bindings.consistent_with_inequality(b.var, b.var_id, b.term, b.term_id) {
                goal = Formula::or(goal, make_inequality(&b));
            }
            i = i + 1;
        }
        goal
    }

    /// What separates a threat from the link it threatens.
    fn separation_goal(&self, u: &Unsafe, bs: &Vec<Binding>, subst: &Vec<(Variable, Term)>, Ghost(fresh): Ghost<Seq<Type>>) -> (res: Rc<Formula>)
        ensures
            res@ == separation(self@, u@, bs@, (Renaming { subst: subst@, fresh })),
    {
        let goal = self.separate_some(u, bs);
        if u.effect.condition.tautology() {
            return goal;
        }
        if u.effect.parameters.len() == 0 {
            return Formula::or(goal, u.effect.condition.negation());
        }
        let mut params: Vec<Variable> = Vec::new();
        let mut i: usize = 0;
        while i < u.effect.parameters.len()
            invariant
                i <= u.effect.parameters@.len(),
                params@.len() == i,
                forall|k: int| 0 <= k < i ==> #[trigger] params@[k] == name_of(subst@, u.effect.parameters@[k]),
            decreases u.effect.parameters@.len() - i,
        {
            let p = u.effect.parameters[i];
            let name = match find_term(subst, p) {
                Some(Term::Variable(v)) => v,
                _ => p,
            };
            params.push(name);
            i = i + 1;
        }
        assert(params@ =~= Seq::new(u@.effect.parameters.len(), |i: int| name_of(subst@, u@.effect.parameters[i])));
        let body = u.effect.condition.substitute(subst).negation();
        Formula::or(goal, Rc::new(Formula::Forall { params, body }))
    }

    /// Adds the plan with a threat separated from its link. For a
    /// universally-quantified conditional effect the negated condition is wrapped
    /// in a fresh-variable `forall`, so that *no* instance of the effect fires.
    pub(crate) fn separate(&self, ctx: &SearchContext, plans: &mut Vec<Rc<Plan>>, unsafe_: &Unsafe, unifier: &Vec<Binding>)
        requires
            ctx.wf(),
            self.wf(),
            unifier@ == threat_unifier(ctx@, self@, unsafe_@),
            all_wf(old(plans)@),
        ensures
            all_wf(final(plans)@),
            plan_views(final(plans)@) == appended(plan_views(old(plans)@), separated_plan(ctx@, self@, unsafe_@)),
    {
        let ghost r = separation_names(ctx@, self@, unsafe_@);
        let mut subst: Vec<(Variable, Term)> = Vec::new();
        let mut fresh = copy_vec(&self.fresh);
        assert(subst@ =~= seq![]);
        if !unsafe_.effect.condition.tautology() {
            let types = self.types(ctx);
            if !name_all(ctx, &types, &mut subst, &mut fresh, &unsafe_.effect.parameters, unsafe_.step_id) {
                return;
            }
        }
        assert((Renaming { subst: subst@, fresh: fresh@ }) =~= r);
        if fresh.len() > (u32::MAX - ctx.fresh_base) as usize {
            return;
        }
        let goal = self.separation_goal(unsafe_, unifier, &subst, Ghost(fresh@));
        let mut base = self.share();
        base.unsafes = remove_unsafe(&self.unsafes, unsafe_);
        base.fresh = Rc::new(fresh);
        assert(base@ =~= (PlanView { unsafes: removed(self@.unsafes, unsafe_@), fresh: r.fresh, ..self@ }));
        let opens = chain::share(&self.open_conds);
        match base.with_goal(ctx, opens, &goal, unsafe_.step_id) {
            Some(child) => {
                proof {
                    lemma_plan_push(plans@, Rc::new(child));
                }
                plans.push(Rc::new(child));
            },
            None => {},
        }
    }

    /// Adds the plan with `before_id` ordered before `after_id` and the threat
    /// gone, if that order is possible.
    fn new_ordering(&self, plans: &mut Vec<Rc<Plan>>, before_id: usize, after_id: usize, unsafe_: &Unsafe)
        requires
            self.wf(),
            all_wf(old(plans)@),
        ensures
            all_wf(final(plans)@),
            plan_views(final(plans)@) == appended(plan_views(old(plans)@), ordered_plan(self@, unsafe_@, before_id, after_id)),
    {
        match self.orderings.with_order(before_id, after_id) {
            Some(orderings) => {
                let mut child = self.share();
                child.orderings = orderings;
                child.unsafes = remove_unsafe(&self.unsafes, unsafe_);
                child.id = 0;
                proof {
                    assert(child@ =~= ordered_plan(self@, unsafe_@, before_id, after_id)->0);
                    lemma_plan_push(plans@, Rc::new(child));
                }
                plans.push(Rc::new(child));
            },
            None => {},
        }
    }

    /// Orders the threatening step before the link.
    fn demote(&self, plans: &mut Vec<Rc<Plan>>, unsafe_: &Unsafe)
        requires
            self.wf(),
            all_wf(old(plans)@),
        ensures
            all_wf(final(plans)@),
            plan_views(final(plans)@) == appended(
                plan_views(old(plans)@),
                ordered_plan(self@, unsafe_@, unsafe_.step_id, unsafe_.link.from_id),
            ),
    {
        self.new_ordering(plans, unsafe_.step_id, unsafe_.link.from_id, unsafe_);
    }

    /// Orders the threatening step behind the link.
    fn promote(&self, plans: &mut Vec<Rc<Plan>>, unsafe_: &Unsafe)
        requires
            self.wf(),
            all_wf(old(plans)@),
        ensures
            all_wf(final(plans)@),
            plan_views(final(plans)@) == appended(
                plan_views(old(plans)@),
                ordered_plan(self@, unsafe_@, unsafe_.link.to_id, unsafe_.step_id),
            ),
    {
        self.new_ordering(plans, unsafe_.link.to_id, unsafe_.step_id, unsafe_);
    }

    /// Whether a threat is still one, and the bindings that make it one.
    pub(crate) fn affected(&self, ctx: &SearchContext, unsafe_: &Unsafe, mgu: &mut Vec<Binding>) -> (res: bool)
        requires
            ctx.wf(),
            self.wf(),
            old(mgu)@ == Seq::<Binding>::empty(),
        ensures
            res == is_threat(ctx@, self@, unsafe_@),
            res ==> final(mgu)@ == threat_unifier(ctx@, self@, unsafe_@),
    {
        let link = &unsafe_.link;
        if !self.orderings.may_order(link.from_id, unsafe_.step_id) || !self.orderings.may_order(unsafe_.step_id, link.to_id) {
            return false;
        }
        let types = self.types(ctx);
        let tctx = ctx.type_ctx(&types);
        assert(mgu@ =~= seq![]);
        let res = self.bindings.affects_mgu(&tctx, mgu, &unsafe_.effect.literal, unsafe_.step_id, &link.condition, link.to_id);
        proof {
            let u = threat_unifier(ctx@, self@, unsafe_@);
            assert(seq![] + u =~= u);
        }
        res
    }

    /// Adds the plans that resolve a threat.
    pub fn handle_unsafe(&self, ctx: &SearchContext, plans: &mut Vec<Rc<Plan>>, unsafe_: &Unsafe)
        requires
            ctx.wf(),
            self.wf(),
            all_wf(old(plans)@),
        ensures
            all_wf(final(plans)@),
            plan_views(final(plans)@) == plan_views(old(plans)@) + unsafe_plans(ctx@, self@, unsafe_@),
    {
        let ghost base = plan_views(plans@);
        let mut mgu: Vec<Binding> = Vec::new();
        assert(mgu@ =~= Seq::empty());
        if self.affected(ctx, unsafe_, &mut mgu) {
            proof {
                let none: Seq<PlanView> = seq![];
                let a = separated_plan(ctx@, self@, unsafe_@);
                let b = ordered_plan(self@, unsafe_@, unsafe_.link.to_id, unsafe_.step_id);
                let c = ordered_plan(self@, unsafe_@, unsafe_.step_id, unsafe_.link.from_id);
                assert(base + none =~= base);
                lemma_appended(base, none, a);
                lemma_appended(base, appended(none, a), b);
                lemma_appended(base, appended(appended(none, a), b), c);
            }
            self.separate(ctx, plans, unsafe_, &mgu);
            self.promote(plans, unsafe_);
            self.demote(plans, unsafe_);
        } else {
            // Not a threat any more: just drop it.
            let mut child = self.share();
            child.unsafes = remove_unsafe(&self.unsafes, unsafe_);
            child.id = 0;
            proof {
                let v = PlanView { unsafes: removed(self@.unsafes, unsafe_@), ..self@ };
                assert(child@ =~= v);
                lemma_plan_push(plans@, Rc::new(child));
                assert(base.push(v) =~= base + seq![v]);
            }
            plans.push(Rc::new(child));
        }
    }

    /// Adds the plans that resolve a flaw.
    pub fn resolve_flaw(&self, ctx: &SearchContext, flaw: &Flaw, plans: &mut Vec<Rc<Plan>>)
        requires
            ctx.wf(),
            self.wf(),
            all_wf(old(plans)@),
        ensures
            all_wf(final(plans)@),
            plan_views(final(plans)@) == plan_views(old(plans)@) + flaw_plans(ctx@, self@, flaw@),
    {
        match flaw {
            Flaw::Unsafe(u) => self.handle_unsafe(ctx, plans, u),
            Flaw::OpenCondition(oc) => self.handle_open_condition(ctx, plans, oc),
        }
    }
}

/// The plans that resolve a flaw.
pub open spec fn flaw_plans(cv: ContextView, p: PlanView, flaw: crate::flaws::FlawView) -> Seq<PlanView> {
    match flaw {
        crate::flaws::FlawView::Unsafe(u) => unsafe_plans(cv, p, u),
        crate::flaws::FlawView::OpenCondition(oc) => open_plans(cv, p, oc),
    }
}

} // verus!
