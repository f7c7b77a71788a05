//! Lowered PDDL problems.
use std::rc::Rc;

use vstd::prelude::*;

use crate::formula::{Atom, Formula};
use crate::functions::Function;
use crate::terms::TermTable;
use crate::types::Type;

verus! {

/// Supported classical optimization metric.
#[derive(Debug, Clone, Copy, PartialEq, Eq, Structural)]
pub enum Metric {
    MinimizeTotalCost,
}

/// A lowered problem.
///
/// The problem borrows nothing from its domain; it records the referenced domain
/// name, and its `objects` table extends the domain's constant table.
#[derive(Debug)]
pub struct Problem {
    pub name: String,
    /// Name of the domain this problem refers to (`:domain X`).
    pub domain_name: String,
    /// Problem objects, extending the domain constants.
    pub objects: TermTable,
    /// Initial atoms, each once, in PDDL declaration order. The order is
    /// observable through the order of achievers.
    pub init_order: Vec<Atom>,
    /// The initial values of the functions that action costs read.
    pub cost_values: Vec<(Function, usize)>,
    pub goal: Rc<Formula>,
    /// Types of any variables introduced while lowering the goal, indexed by
    /// variable index. Used for type reasoning at the goal step.
    pub goal_var_types: Vec<Type>,
    /// Optional optimization metric. The classical subset supports only
    /// `(:metric minimize (total-cost))`.
    pub metric: Option<Metric>,
}

} // verus!
