//! Actions: lifted schemas and ground actions.
use std::rc::Rc;

use vstd::prelude::*;

use crate::effect::Effect;
use crate::formula::Formula;
use crate::functions::Function;
use crate::terms::{Object, Variable};
use crate::types::Type;

verus! {

/// A lifted action schema (an `:action` definition).
#[derive(Debug)]
pub struct ActionSchema {
    /// Unique id assigned during lowering.
    pub id: usize,
    pub name: String,
    /// Schema parameters, in declaration order.
    pub parameters: Vec<Variable>,
    /// Types of every variable in this schema's scope, indexed by variable
    /// index (parameters plus any quantified variables).
    pub var_types: Vec<Type>,
    pub precondition: Rc<Formula>,
    pub effects: Vec<Effect>,
    /// Declared PDDL action cost, resolved against a problem. Costless
    /// classical domains use one.
    pub cost: usize,
    /// The constant part of the declared cost, i.e. the sum of the literal `N`
    /// in every `(increase (total-cost) N)`.
    pub cost_base: usize,
    /// Nullary functions summed into the cost by `(increase (total-cost) (f))`.
    pub cost_functions: Vec<Function>,
}

/// A fully ground action, produced by instantiation.
#[derive(Debug)]
pub struct GroundAction {
    pub id: usize,
    pub name: String,
    pub arguments: Vec<Object>,
    pub precondition: Rc<Formula>,
    pub effects: Vec<Effect>,
    pub cost: usize,
}

} // verus!
