//! Plan steps and the actions they are instantiated from.
use std::rc::Rc;

use vstd::prelude::*;

use crate::effect::{effect_views, Effect, EffectView};
use crate::formula::{Formula, FormulaView};
use crate::terms::{Object, Variable};
use crate::text::chars_of;
use crate::types::{Type, OBJECT};

verus! {

/// An action a step is instantiated from: an action schema (lifted), a ground
/// action, or the synthetic init/goal action.
#[derive(Debug)]
pub struct StepAction {
    /// The number of the action: no two actions of a search have the same.
    pub id: usize,
    /// Action name. `<init 0>` for the init step, empty for the goal step.
    pub name: String,
    /// Schema parameters, in order (lifted steps). Empty for ground/init/goal.
    pub parameters: Vec<Variable>,
    /// Ground arguments, in order (ground steps). Empty for lifted/init/goal.
    pub arguments: Vec<Object>,
    /// Precondition formula (the goal formula for the goal step).
    pub precondition: Rc<Formula>,
    /// Effects (the init atoms for the init step; empty for the goal step).
    pub effects: Vec<Effect>,
    /// The declared cost.
    pub cost: usize,
    /// Variable types in this action's scope, indexed by variable index.
    pub var_types: Vec<Type>,
}

pub struct StepActionView {
    pub id: usize,
    pub name: Seq<char>,
    pub parameters: Seq<Variable>,
    pub arguments: Seq<Object>,
    pub precondition: FormulaView,
    pub effects: Seq<EffectView>,
    pub cost: nat,
    pub var_types: Seq<Type>,
}

impl StepActionView {
    /// Whether this is a synthetic action: no name, or one that begins with `<`.
    pub open spec fn is_synthetic(self) -> bool {
        self.name.len() == 0 || self.name[0] == '<'
    }

    /// The type of a variable in the action's scope; `object` outside it.
    pub open spec fn type_of(self, v: Variable) -> Type {
        if v.0 < self.var_types.len() {
            self.var_types[v.0 as int]
        } else {
            Type(OBJECT)
        }
    }
}

impl View for StepAction {
    type V = StepActionView;

    open spec fn view(&self) -> StepActionView {
        StepActionView {
            id: self.id,
            name: self.name@,
            parameters: self.parameters@,
            arguments: self.arguments@,
            precondition: self.precondition@,
            effects: effect_views(self.effects@),
            cost: self.cost as nat,
            var_types: self.var_types@,
        }
    }
}

impl StepAction {
    /// Whether this is a synthetic action (name begins with `<` or is empty),
    /// skipped in add/reuse-step and in plan output. The goal action's empty
    /// name is never an achiever and prints nothing.
    pub fn synthetic(&self) -> (res: bool)
        ensures
            res == self@.is_synthetic(),
    {
        let name = chars_of(self.name.as_str());
        name.len() == 0 || name[0] == '<'
    }

    /// The type of a variable in the action's scope; `object` outside it.
    pub fn variable_type(&self, v: Variable) -> (res: Type)
        ensures
            res == self@.type_of(v),
    {
        let i = v.0 as usize;
        if i < self.var_types.len() {
            self.var_types[i]
        } else {
            Type(OBJECT)
        }
    }
}

/// A step of a plan.
#[derive(Debug)]
pub struct Step {
    pub id: usize,
    pub action: Rc<StepAction>,
}

pub struct StepView {
    pub id: usize,
    pub action: StepActionView,
}

impl View for Step {
    type V = StepView;

    open spec fn view(&self) -> StepView {
        StepView { id: self.id, action: self.action@ }
    }
}

impl Clone for Step {
    fn clone(&self) -> (res: Self)
        ensures
            res == *self,
    {
        Step { id: self.id, action: self.action.clone() }
    }
}

/// The types of the variables in effect at each step: those of the step's action,
/// and those of the variables made fresh during refinement.
#[derive(Debug)]
pub struct StepTypes {
    pub steps: Vec<Step>,
    /// The number of the first fresh variable.
    pub fresh_base: u32,
    /// The types of the fresh variables, by number from there.
    pub fresh: Vec<Type>,
}

/// The action of the first step with the given id, if there is one.
pub open spec fn action_of(steps: Seq<StepView>, id: usize) -> Option<StepActionView>
    decreases steps.len(),
{
    if steps.len() == 0 {
        None
    } else if steps[0].id == id {
        Some(steps[0].action)
    } else {
        action_of(steps.drop_first(), id)
    }
}

/// The mathematical forms of a list of steps.
pub open spec fn step_views(steps: Seq<Step>) -> Seq<StepView> {
    Seq::new(steps.len(), |i: int| steps[i]@)
}

#[verifier::ext_equal]
pub struct StepTypesView {
    pub steps: Seq<StepView>,
    pub fresh_base: nat,
    pub fresh: Seq<Type>,
}

impl StepTypesView {
    /// The type of a variable at a step; `object` where nothing is known of it.
    pub open spec fn type_of(self, v: Variable, step_id: usize) -> Type {
        if self.fresh_base <= v.0 < self.fresh_base + self.fresh.len() {
            self.fresh[v.0 - self.fresh_base]
        } else {
            match action_of(self.steps, step_id) {
                Some(a) => a.type_of(v),
                None => Type(OBJECT),
            }
        }
    }
}

impl View for StepTypes {
    type V = StepTypesView;

    open spec fn view(&self) -> StepTypesView {
        StepTypesView { steps: step_views(self.steps@), fresh_base: self.fresh_base as nat, fresh: self.fresh@ }
    }
}

/// Resolver for the variable types in effect at a given step. Each step's
/// action carries its own `var_types`.
pub trait StepVarTypes {
    /// The type of a variable at a step.
    spec fn typed(&self, var: Variable, step_id: usize) -> Type;

    fn var_type(&self, var: Variable, step_id: usize) -> (res: Type)
        ensures
            res == self.typed(var, step_id),
    ;
}

impl StepVarTypes for StepTypes {
    open spec fn typed(&self, var: Variable, step_id: usize) -> Type {
        self@.type_of(var, step_id)
    }

    fn var_type(&self, var: Variable, step_id: usize) -> (res: Type) {
        if var.0 >= self.fresh_base && ((var.0 - self.fresh_base) as usize) < self.fresh.len() {
            return self.fresh[(var.0 - self.fresh_base) as usize];
        }
        let ghost all = step_views(self.steps@);
        let mut i: usize = 0;
        assert(all.skip(0) =~= all);
        while i < self.steps.len()
            invariant
                all == step_views(self.steps@),
                !(self@.fresh_base <= var.0 < self@.fresh_base + self@.fresh.len()),
                i <= self.steps@.len(),
                action_of(all, step_id) == action_of(all.skip(i as int), step_id),
            decreases self.steps@.len() - i,
        {
            assert(all.skip(i as int).drop_first() =~= all.skip(i + 1));
            assert(all.skip(i as int)[0] == self.steps@[i as int]@);
            if self.steps[i].id == step_id {
                return self.steps[i].action.variable_type(var);
            }
            i = i + 1;
        }
        Type(OBJECT)
    }
}

} // verus!
