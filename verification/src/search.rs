//! The search context: what refinement knows of the domain and the problem.
use std::rc::Rc;

use vstd::prelude::*;

use crate::action::ActionSchema;
use crate::domain::Domain;
use crate::effect::{effect_views, Effect, EffectTime, EffectView};
use crate::formula::{Atom, AtomView, Formula, FormulaView, Literal, LiteralView};
use crate::instantiate::{
    consistent, ground, ground_effect, instantiate_effect, instantiate_formula, precondition_consistent,
};
use crate::params::{ActionCost, Parameters};
use crate::predicates::Predicate;
use crate::problem::Problem;
use crate::step::{StepAction, StepActionView, StepTypes, StepTypesView};
use crate::terms::{Object, Variable};
use crate::text::copy_vec;
use crate::types::{Type, TypeView};
use crate::typing::{all_object_types, extends_constants, TypeContext, Typing};

verus! {

/// The number of the init action.
pub const INIT_ACTION: usize = 0;

/// The number of the goal action.
pub const GOAL_ACTION: usize = 1;

/// What refinement knows of the domain and the problem.
pub struct SearchContext<'a> {
    pub domain: &'a Domain,
    pub problem: &'a Problem,
    pub params: &'a Parameters,
    /// The synthetic action whose effects are the initial atoms.
    pub init_action: Rc<StepAction>,
    /// The synthetic action whose precondition is the goal.
    pub goal_action: Rc<StepAction>,
    /// The actions that steps are instantiated from.
    pub actions: Vec<Rc<StepAction>>,
    /// The number of the first variable made fresh during refinement: no action
    /// has a variable of that number or a higher one.
    pub fresh_base: u32,
}

/// The mathematical form of a context.
pub struct ContextView {
    pub table: Seq<TypeView>,
    pub objects: Seq<Type>,
    pub dynamic: Set<Predicate>,
    pub init: StepActionView,
    pub goal: StepActionView,
    pub actions: Seq<StepActionView>,
    pub fresh_base: nat,
    pub cost: ActionCost,
}

/// The effects of an action, among the first `n`, whose literal has the sign and
/// the predicate of `l`.
pub open spec fn effects_for(a: StepActionView, l: LiteralView, n: nat) -> Seq<(StepActionView, int)>
    decreases n,
{
    if n == 0 {
        seq![]
    } else {
        let rest = effects_for(a, l, (n - 1) as nat);
        let e = a.effects[n - 1];
        if e.literal.negative == l.negative && e.literal.atom.predicate == l.atom.predicate {
            rest.push((a, n - 1))
        } else {
            rest
        }
    }
}

/// The effects of the first `n` actions whose literal has the sign and the
/// predicate of `l`.
pub open spec fn effects_among(actions: Seq<StepActionView>, l: LiteralView, n: nat) -> Seq<(StepActionView, int)>
    decreases n,
{
    if n == 0 {
        seq![]
    } else {
        effects_among(actions, l, (n - 1) as nat) + effects_for(actions[n - 1], l, actions[n - 1].effects.len())
    }
}

impl ContextView {
    /// The effects that may achieve a literal: those of the init action first,
    /// then those of the actions in order.
    pub open spec fn achievers(self, l: LiteralView) -> Seq<(StepActionView, int)> {
        effects_for(self.init, l, self.init.effects.len()) + effects_among(self.actions, l, self.actions.len())
    }

    /// Type reasoning with the given variable types.
    pub open spec fn typing(self, vars: StepTypesView) -> Typing {
        Typing { table: self.table, objects: self.objects, vars }
    }
}

/// The mathematical forms of a list of actions.
pub open spec fn action_views(actions: Seq<Rc<StepAction>>) -> Seq<StepActionView> {
    Seq::new(actions.len(), |i: int| actions[i]@)
}

fn push_effects(a: &Rc<StepAction>, literal: &Literal, out: &mut Vec<(Rc<StepAction>, usize)>)
    ensures
        achiever_views(final(out)@) == achiever_views(old(out)@) + effects_for(a@, literal@, a@.effects.len()),
{
    let ghost before = achiever_views(out@);
    let mut i: usize = 0;
    assert(before + seq![] =~= before);
    while i < a.effects.len()
        invariant
            i <= a.effects@.len(),
            achiever_views(out@) == before + effects_for(a@, literal@, i as nat),
        decreases a.effects@.len() - i,
    {
        let e = &a.effects[i];
        assert(a@.effects[i as int] == e@);
        let ghost shown = out@;
        let ghost found = effects_for(a@, literal@, i as nat);
        if e.literal.negative() == literal.negative() && e.literal.atom().predicate == literal.atom().predicate {
            out.push((a.clone(), i));
            assert(achiever_views(out@) =~= achiever_views(shown).push((a@, i as int)));
            assert(before + found.push((a@, i as int)) =~= (before + found).push((a@, i as int)));
        }
        i = i + 1;
    }
}

/// The mathematical forms of a list of achievers.
pub open spec fn achiever_views(s: Seq<(Rc<StepAction>, usize)>) -> Seq<(StepActionView, int)> {
    Seq::new(s.len(), |i: int| (s[i].0@, s[i].1 as int))
}

/// What an achiever is: an effect of the init action or of an action.
pub proof fn lemma_achievers(cv: ContextView, l: LiteralView)
    ensures
        forall|i: int| 0 <= i < cv.achievers(l).len() ==> 0 <= (#[trigger] cv.achievers(l)[i]).1 < cv.achievers(l)[i].0.effects.len(),
{
    lemma_effects_for(cv.init, l, cv.init.effects.len());
    lemma_effects_among(cv.actions, l, cv.actions.len());
    let a = effects_for(cv.init, l, cv.init.effects.len());
    let b = effects_among(cv.actions, l, cv.actions.len());
    assert forall|i: int| 0 <= i < cv.achievers(l).len() implies 0 <= (#[trigger] cv.achievers(l)[i]).1 < cv.achievers(l)[i].0.effects.len() by {
        if i < a.len() {
            assert((a + b)[i] == a[i]);
        } else {
            assert((a + b)[i] == b[i - a.len()]);
        }
    }
}

proof fn lemma_effects_for(a: StepActionView, l: LiteralView, n: nat)
    requires
        n <= a.effects.len(),
    ensures
        forall|i: int| 0 <= i < effects_for(a, l, n).len() ==> 0 <= (#[trigger] effects_for(a, l, n)[i]).1 < a.effects.len() && effects_for(
            a,
            l,
            n,
        )[i].0 == a,
    decreases n,
{
    if n > 0 {
        lemma_effects_for(a, l, (n - 1) as nat);
        let rest = effects_for(a, l, (n - 1) as nat);
        let all = effects_for(a, l, n);
        assert forall|i: int| 0 <= i < all.len() implies 0 <= (#[trigger] all[i]).1 < a.effects.len() && all[i].0 == a by {
            if i < rest.len() {
                assert(all[i] == rest[i]);
            }
        }
    }
}

proof fn lemma_effects_among(actions: Seq<StepActionView>, l: LiteralView, n: nat)
    requires
        n <= actions.len(),
    ensures
        forall|i: int| 0 <= i < effects_among(actions, l, n).len() ==> 0 <= (#[trigger] effects_among(actions, l, n)[i]).1 < effects_among(
            actions,
            l,
            n,
        )[i].0.effects.len(),
    decreases n,
{
    if n > 0 {
        let rest = effects_among(actions, l, (n - 1) as nat);
        let a = actions[n - 1];
        let mine = effects_for(a, l, a.effects.len());
        lemma_effects_among(actions, l, (n - 1) as nat);
        lemma_effects_for(a, l, a.effects.len());
        let all = effects_among(actions, l, n);
        assert forall|i: int| 0 <= i < all.len() implies 0 <= (#[trigger] all[i]).1 < all[i].0.effects.len() by {
            if i < rest.len() {
                assert(all[i] == rest[i]);
            } else {
                assert(all[i] == mine[i - rest.len()]);
            }
        }
    }
}

impl<'a> SearchContext<'a> {
    pub open spec fn view(&self) -> ContextView {
        ContextView {
            table: self.domain.types@,
            objects: all_object_types(&self.domain.constants, &self.problem.objects),
            dynamic: self.domain.predicates.dynamics(),
            init: self.init_action@,
            goal: self.goal_action@,
            actions: action_views(self.actions@),
            fresh_base: self.fresh_base as nat,
            cost: self.params.action_cost,
        }
    }

    /// The tables are in order.
    pub open spec fn wf(&self) -> bool {
        &&& self.domain.wf()
        &&& extends_constants(&self.domain.constants, &self.problem.objects)
    }

    /// Type reasoning with the given variable types.
    pub fn type_ctx<'b>(&'b self, step_vars: &'b StepTypes) -> (res: TypeContext<'b>)
        requires
            self.wf(),
        ensures
            res.wf(),
            res@ == self@.typing(step_vars@),
    {
        TypeContext {
            types: &self.domain.types,
            objects: &self.problem.objects,
            constants: &self.domain.constants,
            step_vars,
        }
    }

    /// The effects that may achieve a literal: those of the init action first,
    /// then those of the actions in order.
    pub fn literal_achievers(&self, literal: &Literal) -> (res: Vec<(Rc<StepAction>, usize)>)
        ensures
            achiever_views(res@) == self@.achievers(literal@),
    {
        let mut res: Vec<(Rc<StepAction>, usize)> = Vec::new();
        assert(achiever_views(res@) =~= seq![]);
        push_effects(&self.init_action, literal, &mut res);
        let ghost first = effects_for(self@.init, literal@, self@.init.effects.len());
        assert(achiever_views(res@) =~= first);
        let mut i: usize = 0;
        assert(first + seq![] =~= first);
        while i < self.actions.len()
            invariant
                i <= self.actions@.len(),
                achiever_views(res@) == first + effects_among(self@.actions, literal@, i as nat),
            decreases self.actions@.len() - i,
        {
            let ghost found = effects_among(self@.actions, literal@, i as nat);
            push_effects(&self.actions[i], literal, &mut res);
            proof {
                let a = self@.actions[i as int];
                assert(a == self.actions@[i as int]@);
                let mine = effects_for(a, literal@, a.effects.len());
                assert((first + found) + mine =~= first + (found + mine));
            }
            i = i + 1;
        }
        res
    }

    /// The cost of an action under the cost model.
    pub fn action_cost(&self, action: &StepAction) -> (res: usize)
        ensures
            res == self@.cost.cost_of(action.cost),
    {
        self.params.action_cost.resolve(action.cost)
    }
}

/// The action of a schema, with its variables.
pub open spec fn lifted(s: ActionSchema, id: usize) -> StepActionView {
    StepActionView {
        id,
        name: s.name@,
        parameters: s.parameters@,
        arguments: seq![],
        precondition: s.precondition@,
        effects: effect_views(s.effects@),
        cost: s.cost as nat,
        var_types: s.var_types@,
    }
}

/// The objects that the parameters of a schema stand for.
pub open spec fn arguments_of(params: Seq<Variable>, subst: Seq<Option<Object>>) -> Seq<Object> {
    Seq::new(params.len(), |i: int| subst[params[i].0 as int]->0)
}

/// The ground action of a schema under a substitution. Its variable types are
/// those of the schema: variables of quantified effects stay.
pub open spec fn grounded(s: ActionSchema, subst: Seq<Option<Object>>, id: usize) -> StepActionView {
    StepActionView {
        id,
        name: s.name@,
        parameters: seq![],
        arguments: arguments_of(s.parameters@, subst),
        precondition: ground(s.precondition@, subst),
        effects: Seq::new(s.effects@.len(), |i: int| ground_effect(s.effects@[i]@, subst)),
        cost: s.cost as nat,
        var_types: s.var_types@,
    }
}

/// A schema whose parameters have types in its scope.
pub open spec fn in_scope(s: ActionSchema) -> bool {
    forall|i: int| 0 <= i < s.parameters@.len() ==> (#[trigger] s.parameters@[i]).0 < s.var_types@.len()
}

/// A list of actions extended by the groundings of a schema over the first `n` of
/// the objects `os` for parameter `k`, and over all objects for the later ones.
pub open spec fn with_objects(
    t: Typing,
    out: Seq<StepActionView>,
    s: ActionSchema,
    k: nat,
    subst: Seq<Option<Object>>,
    os: Seq<Object>,
    n: nat,
) -> Seq<StepActionView>
    decreases s.parameters@.len() - k, 0nat, n,
{
    if n == 0 || k >= s.parameters@.len() {
        out
    } else {
        let v = s.parameters@[k as int].0 as int;
        with_groundings(
            t,
            with_objects(t, out, s, k, subst, os, (n - 1) as nat),
            s,
            k + 1,
            subst.update(v, Some(os[n - 1])),
        )
    }
}

/// A list of actions extended by the groundings of a schema: parameters from `k`
/// on range over the objects of their types, and those whose (in)equalities hold
/// are kept.
pub open spec fn with_groundings(t: Typing, out: Seq<StepActionView>, s: ActionSchema, k: nat, subst: Seq<Option<Object>>) -> Seq<
    StepActionView,
>
    decreases s.parameters@.len() - k, 1nat, 0nat,
{
    if k >= s.parameters@.len() {
        if consistent(s.precondition@, subst) {
            out.push(grounded(s, subst, (out.len() + 2) as usize))
        } else {
            out
        }
    } else {
        let ty = s.var_types@[s.parameters@[k as int].0 as int];
        let os = t.range(ty);
        with_objects(t, out, s, k, subst, os, os.len())
    }
}

/// A substitution of nothing for `n` variables.
pub open spec fn unbound(n: nat) -> Seq<Option<Object>> {
    Seq::new(n, |i: int| None)
}

/// The actions of the first `n` schemas, ground or lifted.
pub open spec fn actions_of(t: Typing, schemas: Seq<ActionSchema>, ground_all: bool, n: nat) -> Seq<StepActionView>
    decreases n,
{
    if n == 0 {
        seq![]
    } else {
        let out = actions_of(t, schemas, ground_all, (n - 1) as nat);
        let s = schemas[n - 1];
        if ground_all {
            with_groundings(t, out, s, 0, unbound(s.var_types@.len()))
        } else {
            out.push(lifted(s, (out.len() + 2) as usize))
        }
    }
}

/// The forms of a list of effects under a substitution.
pub fn instantiate_effects(effects: &Vec<Effect>, subst: &Vec<Option<Object>>) -> (res: Vec<Effect>)
    ensures
        effect_views(res@) == Seq::new(effects@.len(), |i: int| ground_effect(effects@[i]@, subst@)),
{
    let mut res: Vec<Effect> = Vec::new();
    let mut i: usize = 0;
    while i < effects.len()
        invariant
            i <= effects@.len(),
            res@.len() == i,
            forall|k: int| 0 <= k < i ==> (#[trigger] res@[k])@ == ground_effect(effects@[k]@, subst@),
        decreases effects@.len() - i,
    {
        res.push(instantiate_effect(&effects[i], subst));
        i = i + 1;
    }
    assert(effect_views(res@) =~= Seq::new(effects@.len(), |i: int| ground_effect(effects@[i]@, subst@)));
    res
}

/// Copies of a list of effects.
pub fn copy_effects(effects: &Vec<Effect>) -> (res: Vec<Effect>)
    ensures
        effect_views(res@) == effect_views(effects@),
{
    let mut res: Vec<Effect> = Vec::new();
    let mut i: usize = 0;
    while i < effects.len()
        invariant
            i <= effects@.len(),
            res@.len() == i,
            forall|k: int| 0 <= k < i ==> (#[trigger] res@[k])@ == effects@[k]@,
        decreases effects@.len() - i,
    {
        res.push(effects[i].clone());
        i = i + 1;
    }
    assert(effect_views(res@) =~= effect_views(effects@));
    res
}

/// The ground action of a schema under a substitution that binds its parameters.
fn ground_action(s: &ActionSchema, subst: &Vec<Option<Object>>, id: usize) -> (res: StepAction)
    requires
        in_scope(*s),
        subst@.len() == s.var_types@.len(),
        forall|i: int| 0 <= i < s.parameters@.len() ==> subst@[(#[trigger] s.parameters@[i]).0 as int] is Some,
    ensures
        res@ == grounded(*s, subst@, id),
{
    let mut arguments: Vec<Object> = Vec::new();
    let mut i: usize = 0;
    while i < s.parameters.len()
        invariant
            in_scope(*s),
            subst@.len() == s.var_types@.len(),
            forall|k: int| 0 <= k < s.parameters@.len() ==> subst@[(#[trigger] s.parameters@[k]).0 as int] is Some,
            i <= s.parameters@.len(),
            arguments@.len() == i,
            forall|k: int| 0 <= k < i ==> #[trigger] arguments@[k] == subst@[s.parameters@[k].0 as int]->0,
        decreases s.parameters@.len() - i,
    {
        let v = s.parameters[i].0 as usize;
        match subst[v] {
            Some(o) => arguments.push(o),
            None => {
                assert(subst@[s.parameters@[i as int].0 as int] is Some);
            },
        }
        i = i + 1;
    }
    let res = StepAction {
        id,
        name: s.name.clone(),
        parameters: Vec::new(),
        arguments,
        precondition: instantiate_formula(&s.precondition, subst),
        effects: instantiate_effects(&s.effects, subst),
        cost: s.cost,
        var_types: copy_vec(&s.var_types),
    };
    assert(res@.arguments =~= arguments_of(s.parameters@, subst@));
    assert(res@.parameters =~= seq![]);
    res
}

/// Whether the first `k` parameters of a schema are bound.
pub open spec fn bound_upto(s: ActionSchema, subst: Seq<Option<Object>>, k: int) -> bool {
    forall|i: int| 0 <= i < k ==> subst[(#[trigger] s.parameters@[i]).0 as int] is Some
}

/// Adds the groundings of a schema to a list of actions.
pub(crate) fn add_groundings(ctx: &TypeContext, out: &mut Vec<Rc<StepAction>>, s: &ActionSchema, k: usize, subst: &Vec<Option<Object>>)
    requires
        ctx.wf(),
        in_scope(*s),
        k <= s.parameters@.len(),
        subst@.len() == s.var_types@.len(),
        bound_upto(*s, subst@, k as int),
    ensures
        with_groundings(ctx@, action_views(old(out)@), *s, k as nat, subst@).len() <= usize::MAX - 2 ==> action_views(final(out)@)
            == with_groundings(ctx@, action_views(old(out)@), *s, k as nat, subst@),
    decreases s.parameters@.len() - k,
{
    let ghost before = action_views(out@);
    if k == s.parameters.len() {
        if precondition_consistent(&s.precondition, subst) {
            if out.len() <= usize::MAX - 2 {
                let id = out.len() + 2;
                let a = ground_action(s, subst, id);
                let ghost av = a@;
                out.push(Rc::new(a));
                assert(action_views(out@) =~= before.push(av));
            }
        }
        return;
    }
    let v = s.parameters[k].0 as usize;
    assert(s.parameters@[k as int].0 < s.var_types@.len());
    let next: usize = k + 1;
    let os = ctx.compatible_objects(s.var_types[v]);
    let mut i: usize = 0;
    let ghost all = with_objects(ctx@, before, *s, k as nat, subst@, os@, os@.len());
    while i < os.len()
        invariant
            ctx.wf(),
            in_scope(*s),
            k < s.parameters@.len(),
            next == k + 1,
            v == s.parameters@[k as int].0,
            v < s.var_types@.len(),
            subst@.len() == s.var_types@.len(),
            bound_upto(*s, subst@, k as int),
            all == with_objects(ctx@, before, *s, k as nat, subst@, os@, os@.len()),
            i <= os@.len(),
            all.len() <= usize::MAX - 2 ==> action_views(out@) == with_objects(ctx@, before, *s, k as nat, subst@, os@, i as nat),
        decreases os@.len() - i,
    {
        let mut inner = copy_vec(subst);
        inner.set(v, Some(os[i]));
        proof {
            assert forall|j: int| 0 <= j < k + 1 implies inner@[(#[trigger] s.parameters@[j]).0 as int] is Some by {
                if j < k {
                    assert(subst@[s.parameters@[j].0 as int] is Some);
                }
            }
            lemma_objects_grow(ctx@, before, *s, k as nat, subst@, os@, (i + 1) as nat, os@.len());
        }
        add_groundings(ctx, out, s, next, &inner);
        i = i + 1;
    }
}

/// Groundings are added behind what is there.
proof fn lemma_groundings_grow(t: Typing, out: Seq<StepActionView>, s: ActionSchema, k: nat, subst: Seq<Option<Object>>)
    ensures
        with_groundings(t, out, s, k, subst).len() >= out.len(),
    decreases s.parameters@.len() - k, 1nat, 0nat,
{
    if k < s.parameters@.len() {
        let os = t.range(s.var_types@[s.parameters@[k as int].0 as int]);
        lemma_objects_grow(t, out, s, k, subst, os, 0, os.len());
    }
}

proof fn lemma_objects_grow(
    t: Typing,
    out: Seq<StepActionView>,
    s: ActionSchema,
    k: nat,
    subst: Seq<Option<Object>>,
    os: Seq<Object>,
    n: nat,
    m: nat,
)
    requires
        n <= m,
    ensures
        with_objects(t, out, s, k, subst, os, n).len() <= with_objects(t, out, s, k, subst, os, m).len(),
    decreases s.parameters@.len() - k, 0nat, m,
{
    if k < s.parameters@.len() && n < m {
        lemma_objects_grow(t, out, s, k, subst, os, n, (m - 1) as nat);
        let v = s.parameters@[k as int].0 as int;
        lemma_groundings_grow(
            t,
            with_objects(t, out, s, k, subst, os, (m - 1) as nat),
            s,
            k + 1,
            subst.update(v, Some(os[m - 1])),
        );
    }
}

/// The init action of a problem: its effects are the initial atoms.
pub open spec fn init_of(p: &Problem) -> StepActionView {
    StepActionView {
        id: INIT_ACTION,
        name: "<init 0>"@,
        parameters: seq![],
        arguments: seq![],
        precondition: FormulaView::True,
        effects: Seq::new(p.init_order@.len(), |i: int| fact_effect(p.init_order@[i]@)),
        cost: 0,
        var_types: seq![],
    }
}

/// The unconditional effect that asserts an atom.
pub open spec fn fact_effect(a: AtomView) -> EffectView {
    EffectView {
        parameters: seq![],
        condition: FormulaView::True,
        literal: LiteralView { negative: false, atom: a },
        when: EffectTime::AtEnd,
        link_condition: FormulaView::True,
    }
}

/// The goal action of a problem: its precondition is the goal.
pub open spec fn goal_of(p: &Problem) -> StepActionView {
    StepActionView {
        id: GOAL_ACTION,
        name: seq![],
        parameters: seq![],
        arguments: seq![],
        precondition: p.goal@,
        effects: seq![],
        cost: 0,
        var_types: p.goal_var_types@,
    }
}

/// Whether every schema's parameters have types in its scope.
pub open spec fn all_in_scope(schemas: Seq<ActionSchema>) -> bool {
    forall|i: int| 0 <= i < schemas.len() ==> in_scope(#[trigger] schemas[i])
}

/// Type reasoning over the objects alone.
pub open spec fn object_typing(d: &Domain, p: &Problem) -> Typing {
    Typing {
        table: d.types@,
        objects: all_object_types(&d.constants, &p.objects),
        vars: StepTypesView { steps: seq![], fresh_base: 0, fresh: seq![] },
    }
}

/// The actions of a domain for a problem, ground or lifted.
pub open spec fn problem_actions(d: &Domain, p: &Problem, ground_all: bool) -> Seq<StepActionView> {
    actions_of(object_typing(d, p), d.actions@, ground_all, d.actions@.len())
}

pub proof fn lemma_actions_grow(t: Typing, schemas: Seq<ActionSchema>, ground_all: bool, n: nat, m: nat)
    requires
        n <= m,
    ensures
        actions_of(t, schemas, ground_all, n).len() <= actions_of(t, schemas, ground_all, m).len(),
    decreases m,
{
    if n < m {
        lemma_actions_grow(t, schemas, ground_all, n, (m - 1) as nat);
        let s = schemas[m - 1];
        lemma_groundings_grow(t, actions_of(t, schemas, ground_all, (m - 1) as nat), s, 0, unbound(s.var_types@.len()));
    }
}

fn init_action(problem: &Problem) -> (res: StepAction)
    ensures
        res@ == init_of(problem),
{
    let mut effects: Vec<Effect> = Vec::new();
    let mut i: usize = 0;
    while i < problem.init_order.len()
        invariant
            i <= problem.init_order@.len(),
            effects@.len() == i,
            forall|k: int| 0 <= k < i ==> (#[trigger] effects@[k])@ == fact_effect(problem.init_order@[k]@),
        decreases problem.init_order@.len() - i,
    {
        let atom: Atom = problem.init_order[i].clone();
        effects.push(Effect::new(Literal::Atom(atom)));
        i = i + 1;
    }
    let res = StepAction {
        id: INIT_ACTION,
        name: "<init 0>".to_string(),
        parameters: Vec::new(),
        arguments: Vec::new(),
        precondition: Rc::new(Formula::True),
        effects,
        cost: 0,
        var_types: Vec::new(),
    };
    proof {
        assert(res@.effects =~= init_of(problem).effects);
        assert(res@.parameters =~= seq![]);
        assert(res@.arguments =~= seq![]);
        assert(res@.var_types =~= seq![]);
    }
    res
}

fn goal_action(problem: &Problem) -> (res: StepAction)
    ensures
        res@ == goal_of(problem),
{
    let name = String::new();
    assert(name@ =~= seq![]);
    let res = StepAction {
        id: GOAL_ACTION,
        name,
        parameters: Vec::new(),
        arguments: Vec::new(),
        precondition: problem.goal.clone(),
        effects: Vec::new(),
        cost: 0,
        var_types: copy_vec(&problem.goal_var_types),
    };
    proof {
        assert(res@.effects =~= seq![]);
        assert(res@.parameters =~= seq![]);
        assert(res@.arguments =~= seq![]);
    }
    res
}

/// A substitution of nothing.
pub(crate) fn no_objects(n: usize) -> (res: Vec<Option<Object>>)
    ensures
        res@ == unbound(n as nat),
{
    let mut res: Vec<Option<Object>> = Vec::new();
    let mut i: usize = 0;
    while i < n
        invariant
            i <= n,
            res@ == unbound(i as nat),
        decreases n - i,
    {
        res.push(None);
        i = i + 1;
        assert(res@ =~= unbound(i as nat));
    }
    res
}

/// The actions of a domain for a problem.
fn all_actions(domain: &Domain, problem: &Problem, ground_all: bool) -> (res: Vec<Rc<StepAction>>)
    requires
        domain.wf(),
        extends_constants(&domain.constants, &problem.objects),
        all_in_scope(domain.actions@),
    ensures
        problem_actions(domain, problem, ground_all).len() <= usize::MAX - 2 ==> action_views(res@) == problem_actions(
            domain,
            problem,
            ground_all,
        ),
{
    let none = StepTypes { steps: Vec::new(), fresh_base: 0, fresh: Vec::new() };
    let ctx = TypeContext {
        types: &domain.types,
        objects: &problem.objects,
        constants: &domain.constants,
        step_vars: &none,
    };
    let ghost t = object_typing(domain, problem);
    assert(none@ =~= t.vars);
    let ghost all = problem_actions(domain, problem, ground_all);
    let mut res: Vec<Rc<StepAction>> = Vec::new();
    let mut i: usize = 0;
    assert(action_views(res@) =~= seq![]);
    while i < domain.actions.len()
        invariant
            ctx.wf(),
            ctx@ == t,
            all_in_scope(domain.actions@),
            all == actions_of(t, domain.actions@, ground_all, domain.actions@.len()),
            i <= domain.actions@.len(),
            all.len() <= usize::MAX - 2 ==> action_views(res@) == actions_of(t, domain.actions@, ground_all, i as nat),
        decreases domain.actions@.len() - i,
    {
        let s = &domain.actions[i];
        let ghost before = action_views(res@);
        proof {
            lemma_actions_grow(t, domain.actions@, ground_all, (i + 1) as nat, domain.actions@.len());
            assert(in_scope(domain.actions@[i as int]));
        }
        if ground_all {
            let subst = no_objects(s.var_types.len());
            add_groundings(&ctx, &mut res, s, 0, &subst);
        } else if res.len() <= usize::MAX - 2 {
            let id = res.len() + 2;
            let a = StepAction {
                id,
                name: s.name.clone(),
                parameters: copy_vec(&s.parameters),
                arguments: Vec::new(),
                precondition: s.precondition.clone(),
                effects: copy_effects(&s.effects),
                cost: s.cost,
                var_types: copy_vec(&s.var_types),
            };
            let ghost av = a@;
            assert(av.arguments =~= seq![]);
            res.push(Rc::new(a));
            assert(action_views(res@) =~= before.push(av));
        }
        i = i + 1;
    }
    res
}

/// The highest number of variables that an action or the goal has.
fn most_variables(actions: &Vec<Rc<StepAction>>, goal: &StepAction) -> (res: usize)
    ensures
        goal.var_types@.len() <= res,
        forall|i: int| 0 <= i < actions@.len() ==> (#[trigger] actions@[i]).var_types@.len() <= res,
        res == goal.var_types@.len() || exists|i: int| 0 <= i < actions@.len() && (#[trigger] actions@[i]).var_types@.len() == res,
{
    let mut res: usize = goal.var_types.len();
    let mut i: usize = 0;
    while i < actions.len()
        invariant
            i <= actions@.len(),
            goal.var_types@.len() <= res,
            forall|k: int| 0 <= k < i ==> (#[trigger] actions@[k]).var_types@.len() <= res,
            res == goal.var_types@.len() || exists|k: int| 0 <= k < i && (#[trigger] actions@[k]).var_types@.len() == res,
        decreases actions@.len() - i,
    {
        let n = actions[i].var_types.len();
        if n > res {
            res = n;
            assert(actions@[i as int].var_types@.len() == res);
        }
        i = i + 1;
    }
    res
}

impl<'a> SearchContext<'a> {
    /// The context of a problem; `None` if it has more variables or actions than
    /// can be numbered.
    pub fn new(domain: &'a Domain, problem: &'a Problem, params: &'a Parameters) -> (res: Option<SearchContext<'a>>)
        requires
            domain.wf(),
            extends_constants(&domain.constants, &problem.objects),
            all_in_scope(domain.actions@),
        ensures
            res matches Some(ctx) ==> {
                &&& ctx.wf()
                &&& ctx.domain == domain
                &&& ctx.problem == problem
                &&& ctx.params == params
                &&& ctx@.init == init_of(problem)
                &&& ctx@.goal == goal_of(problem)
                &&& problem_actions(domain, problem, params.ground_actions).len() <= usize::MAX - 2 ==> ctx@.actions == problem_actions(
                    domain,
                    problem,
                    params.ground_actions,
                )
                &&& ctx@.goal.var_types.len() <= ctx.fresh_base
                &&& forall|i: int| 0 <= i < ctx@.actions.len() ==> (#[trigger] ctx@.actions[i]).var_types.len() <= ctx.fresh_base
            },
            res is None ==> {
                let all = problem_actions(domain, problem, params.ground_actions);
                ||| all.len() > usize::MAX - 2
                ||| problem.goal_var_types@.len() > u32::MAX
                ||| exists|i: int| 0 <= i < all.len() && (#[trigger] all[i]).var_types.len() > u32::MAX
            },
    {
        let actions = all_actions(domain, problem, params.ground_actions);
        let goal = goal_action(problem);
        let most = most_variables(&actions, &goal);
        let ghost all = problem_actions(domain, problem, params.ground_actions);
        if most > u32::MAX as usize {
            proof {
                if all.len() <= usize::MAX - 2 && problem.goal_var_types@.len() <= u32::MAX {
                    let i = choose|i: int| 0 <= i < actions@.len() && (#[trigger] actions@[i]).var_types@.len() == most;
                    assert(action_views(actions@)[i].var_types.len() == most);
                    assert(all[i].var_types.len() > u32::MAX);
                }
            }
            return None;
        }
        let res = SearchContext {
            domain,
            problem,
            params,
            init_action: Rc::new(init_action(problem)),
            goal_action: Rc::new(goal),
            actions,
            fresh_base: most as u32,
        };
        proof {
            assert forall|i: int| 0 <= i < res@.actions.len() implies (#[trigger] res@.actions[i]).var_types.len() <= res.fresh_base by {
                assert(res.actions@[i].var_types@.len() <= most);
            }
        }
        Some(res)
    }
}

} // verus!
