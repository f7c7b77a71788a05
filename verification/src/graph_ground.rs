//! Ground actions for the planning graph: quantified effects are written out, one
//! for each choice of objects for their variables, and costs are resolved.
use std::rc::Rc;

use vstd::prelude::*;

use crate::action::ActionSchema;
use crate::effect::{effect_views, Effect, EffectView};
use crate::instantiate::{ground, ground_literal, instantiate_formula, instantiate_literal};
use crate::params::ActionCost;
use crate::search::{action_views, actions_of, add_groundings, all_in_scope, in_scope, lemma_actions_grow, no_objects, unbound};
use crate::step::{StepAction, StepActionView};
use crate::terms::{Object, Variable};
use crate::text::copy_vec;
use crate::typing::{TypeContext, Typing};

verus! {

/// A substitution with a variable bound to an object.
pub open spec fn bind(subst: Seq<Option<Object>>, v: Variable, o: Object) -> Seq<Option<Object>> {
    if v.0 < subst.len() {
        subst.update(v.0 as int, Some(o))
    } else {
        subst
    }
}

/// An effect with its variables replaced.
pub open spec fn instance(e: EffectView, subst: Seq<Option<Object>>) -> EffectView {
    EffectView {
        parameters: seq![],
        condition: ground(e.condition, subst),
        literal: ground_literal(e.literal, subst),
        when: e.when,
        link_condition: ground(e.link_condition, subst),
    }
}

/// A list of effects extended by the instances of `e` over the first `n` of the
/// objects `os` for parameter `k`, and over all objects for the later ones.
pub open spec fn with_objects_for(
    t: Typing,
    a: StepActionView,
    out: Seq<EffectView>,
    e: EffectView,
    k: nat,
    subst: Seq<Option<Object>>,
    os: Seq<Object>,
    n: nat,
) -> Seq<EffectView>
    decreases e.parameters.len() - k, 0nat, n,
{
    if n == 0 || k >= e.parameters.len() {
        out
    } else {
        with_instances(
            t,
            a,
            with_objects_for(t, a, out, e, k, subst, os, (n - 1) as nat),
            e,
            k + 1,
            bind(subst, e.parameters[k as int], os[n - 1]),
        )
    }
}

/// A list of effects extended by the instances of `e`: its parameters from `k` on
/// range over the objects of their types.
pub open spec fn with_instances(t: Typing, a: StepActionView, out: Seq<EffectView>, e: EffectView, k: nat, subst: Seq<Option<Object>>) -> Seq<EffectView>
    decreases e.parameters.len() - k, 1nat, 0nat,
{
    if k >= e.parameters.len() {
        out.push(instance(e, subst))
    } else {
        let os = t.range(a.type_of(e.parameters[k as int]));
        with_objects_for(t, a, out, e, k, subst, os, os.len())
    }
}

/// The first `n` effects of an action, quantified ones written out.
pub open spec fn written_out(t: Typing, a: StepActionView, n: nat) -> Seq<EffectView>
    decreases n,
{
    if n == 0 {
        seq![]
    } else {
        with_instances(t, a, written_out(t, a, (n - 1) as nat), a.effects[n - 1], 0, unbound(a.var_types.len()))
    }
}

/// What an action costs: as the cost model resolves it, or one each.
pub open spec fn price(model: ActionCost, task_costs: bool, cost: usize) -> usize {
    if task_costs {
        model.cost_of(cost)
    } else {
        1
    }
}

/// An action as the graph sees it.
pub open spec fn graph_form(t: Typing, model: ActionCost, task_costs: bool, a: StepActionView) -> StepActionView {
    StepActionView {
        effects: written_out(t, a, a.effects.len()),
        cost: price(model, task_costs, a.cost as usize) as nat,
        ..a
    }
}

/// Actions as the graph sees them.
pub open spec fn graph_forms(t: Typing, model: ActionCost, task_costs: bool, actions: Seq<StepActionView>) -> Seq<StepActionView> {
    Seq::new(actions.len(), |i: int| graph_form(t, model, task_costs, actions[i]))
}

/// Adds the instances of an effect to a list.
fn add_instances(ctx: &TypeContext, a: &StepAction, out: &mut Vec<Effect>, e: &Effect, k: usize, subst: &Vec<Option<Object>>)
    requires
        ctx.wf(),
        k <= e.parameters@.len(),
    ensures
        effect_views(final(out)@) == with_instances(ctx@, a@, effect_views(old(out)@), e@, k as nat, subst@),
    decreases e.parameters@.len() - k,
{
    let ghost before = effect_views(out@);
    if k == e.parameters.len() {
        let made = Effect {
            parameters: Vec::new(),
            condition: instantiate_formula(&e.condition, subst),
            literal: instantiate_literal(&e.literal, subst),
            when: e.when,
            link_condition: instantiate_formula(&e.link_condition, subst),
        };
        assert(made@.parameters =~= seq![]);
        let ghost view = made@;
        out.push(made);
        assert(effect_views(out@) =~= before.push(view));
        return;
    }
    let v = e.parameters[k];
    let next: usize = k + 1;
    let os = ctx.compatible_objects(a.variable_type(v));
    let mut i: usize = 0;
    while i < os.len()
        invariant
            ctx.wf(),
            k < e.parameters@.len(),
            next == k + 1,
            v == e.parameters@[k as int],
            i <= os@.len(),
            effect_views(out@) == with_objects_for(ctx@, a@, before, e@, k as nat, subst@, os@, i as nat),
        decreases os@.len() - i,
    {
        let mut inner = copy_vec(subst);
        if (v.0 as usize) < inner.len() {
            inner.set(v.0 as usize, Some(os[i]));
        }
        add_instances(ctx, a, out, e, next, &inner);
        i = i + 1;
    }
}

/// An action as the graph sees it.
pub fn to_graph_form(ctx: &TypeContext, model: ActionCost, task_costs: bool, a: &StepAction) -> (res: StepAction)
    requires
        ctx.wf(),
    ensures
        res@ == graph_form(ctx@, model, task_costs, a@),
{
    let mut effects: Vec<Effect> = Vec::new();
    let mut i: usize = 0;
    assert(effect_views(effects@) =~= seq![]);
    while i < a.effects.len()
        invariant
            ctx.wf(),
            i <= a.effects@.len(),
            effect_views(effects@) == written_out(ctx@, a@, i as nat),
        decreases a.effects@.len() - i,
    {
        assert(a@.effects[i as int] == a.effects@[i as int]@);
        let subst = no_objects(a.var_types.len());
        add_instances(ctx, a, &mut effects, &a.effects[i], 0, &subst);
        i = i + 1;
    }
    let cost = if task_costs {
        model.resolve(a.cost)
    } else {
        1
    };
    StepAction {
        id: a.id,
        name: a.name.clone(),
        parameters: copy_vec(&a.parameters),
        arguments: copy_vec(&a.arguments),
        precondition: a.precondition.clone(),
        effects,
        cost,
        var_types: copy_vec(&a.var_types),
    }
}

/// The groundings of action schemas as the graph sees them.
pub fn ground_for_graph(ctx: &TypeContext, schemas: &Vec<ActionSchema>, model: ActionCost, task_costs: bool) -> (res: Vec<Rc<StepAction>>)
    requires
        ctx.wf(),
        all_in_scope(schemas@),
    ensures
        actions_of(ctx@, schemas@, true, schemas@.len()).len() <= usize::MAX - 2 ==> action_views(res@) == graph_forms(
            ctx@,
            model,
            task_costs,
            actions_of(ctx@, schemas@, true, schemas@.len()),
        ),
{
    let ghost all = actions_of(ctx@, schemas@, true, schemas@.len());
    let mut plain: Vec<Rc<StepAction>> = Vec::new();
    let mut i: usize = 0;
    assert(action_views(plain@) =~= seq![]);
    while i < schemas.len()
        invariant
            ctx.wf(),
            all_in_scope(schemas@),
            all == actions_of(ctx@, schemas@, true, schemas@.len()),
            i <= schemas@.len(),
            all.len() <= usize::MAX - 2 ==> action_views(plain@) == actions_of(ctx@, schemas@, true, i as nat),
        decreases schemas@.len() - i,
    {
        let s = &schemas[i];
        proof {
            lemma_actions_grow(ctx@, schemas@, true, (i + 1) as nat, schemas@.len());
            assert(in_scope(schemas@[i as int]));
        }
        let subst = no_objects(s.var_types.len());
        add_groundings(ctx, &mut plain, s, 0, &subst);
        i = i + 1;
    }
    let mut res: Vec<Rc<StepAction>> = Vec::new();
    let mut j: usize = 0;
    while j < plain.len()
        invariant
            ctx.wf(),
            j <= plain@.len(),
            res@.len() == j,
            forall|k: int| 0 <= k < j ==> (#[trigger] res@[k])@ == graph_form(ctx@, model, task_costs, plain@[k]@),
        decreases plain@.len() - j,
    {
        res.push(Rc::new(to_graph_form(ctx, model, task_costs, &plain[j])));
        j = j + 1;
    }
    proof {
        if all.len() <= usize::MAX - 2 {
            assert(action_views(res@) =~= graph_forms(ctx@, model, task_costs, all)) by {
                assert forall|k: int| 0 <= k < res@.len() implies action_views(res@)[k] == graph_forms(ctx@, model, task_costs, all)[k] by {
                    assert(res@[k]@ == graph_form(ctx@, model, task_costs, plain@[k]@));
                    assert(action_views(plain@)[k] == plain@[k]@);
                }
            }
        }
    }
    res
}

} // verus!
