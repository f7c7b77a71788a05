//! The syntax of PDDL domains and problems, as far as planning reads it.
use vstd::prelude::*;

verus! {

/// A requirement flag.
#[derive(Debug, Clone, Copy, PartialEq, Eq, Structural)]
pub enum AstRequirement {
    Strips,
    Typing,
    NegativePreconditions,
    DisjunctivePreconditions,
    Equality,
    ExistentialPreconditions,
    UniversalPreconditions,
    QuantifiedPreconditions,
    ConditionalEffects,
    Adl,
    /// Numeric or object fluents.
    Fluents,
    DurativeActions,
    DurationInequalities,
    ContinuousEffects,
    TimedInitialLiterals,
    ActionCosts,
    /// Any other: of no meaning here.
    Other,
}

/// A type expression.
#[derive(Debug)]
pub enum AstType {
    Exactly(String),
    Either(Vec<String>),
}

/// A name or variable with its type.
#[derive(Debug)]
pub struct AstTyped {
    pub name: String,
    pub ty: AstType,
}

/// A predicate or function declaration.
#[derive(Debug)]
pub struct AstSkeleton {
    pub name: String,
    pub parameters: Vec<AstTyped>,
}

#[derive(Debug)]
pub enum AstTerm {
    Variable(String),
    Name(String),
    /// A function term.
    Function,
}

#[derive(Debug)]
pub enum AstAtomic {
    Predicate(String, Vec<AstTerm>),
    Equality(AstTerm, AstTerm),
}

/// A goal description.
#[derive(Debug)]
pub enum AstGoal {
    Atomic(AstAtomic),
    NotAtomic(AstAtomic),
    And(Vec<AstGoal>),
    Or(Vec<AstGoal>),
    Not(Box<AstGoal>),
    Imply(Box<AstGoal>, Box<AstGoal>),
    Exists(Vec<AstTyped>, Box<AstGoal>),
    ForAll(Vec<AstTyped>, Box<AstGoal>),
    FluentComparison,
}

/// A part of a precondition or of a problem's goal.
#[derive(Debug)]
pub enum AstPrecondition {
    Goal(AstGoal),
    Preference,
    ForAll(Vec<AstTyped>, Vec<AstPrecondition>),
}

/// What an action adds to a function.
#[derive(Debug)]
pub enum AstAmount {
    Number(usize),
    /// A function without arguments.
    Function(String),
}

#[derive(Debug)]
pub enum AstPrimitive {
    Add(AstAtomic),
    Delete(AstAtomic),
    /// An increase of a function without arguments.
    Increase(String, AstAmount),
    /// Any other numeric assignment.
    AssignNumber,
    AssignObject,
}

#[derive(Debug)]
pub enum AstEffect {
    Primitive(AstPrimitive),
    ForAll(Vec<AstTyped>, Vec<AstEffect>),
    When(AstGoal, Vec<AstPrimitive>),
}

#[derive(Debug)]
pub struct AstAction {
    pub name: String,
    pub parameters: Vec<AstTyped>,
    pub precondition: Vec<AstPrecondition>,
    pub effects: Vec<AstEffect>,
}

#[derive(Debug)]
pub enum AstStructure {
    Action(AstAction),
    DurativeAction,
    Derived,
}

#[derive(Debug)]
pub struct AstDomain {
    pub name: String,
    pub requirements: Vec<AstRequirement>,
    pub types: Vec<AstTyped>,
    pub constants: Vec<AstTyped>,
    pub predicates: Vec<AstSkeleton>,
    pub functions: Vec<AstSkeleton>,
    pub structure: Vec<AstStructure>,
}

#[derive(Debug)]
pub enum AstInit {
    /// A ground atom, or its negation.
    Atom { negated: bool, predicate: String, arguments: Vec<String> },
    Equality,
    /// A timed initial literal.
    Timed,
    /// The value of a function without arguments.
    Value(String, usize),
    /// Any other fluent value.
    Fluent,
}

#[derive(Debug)]
pub struct AstProblem {
    pub name: String,
    pub domain_name: String,
    pub requirements: Vec<AstRequirement>,
    pub objects: Vec<AstTyped>,
    pub init: Vec<AstInit>,
    pub goals: Vec<AstPrecondition>,
    pub metric: Option<AstMetric>,
}

/// What plans are to be compared by.
#[derive(Debug)]
pub enum AstMetric {
    /// The least value of a function without arguments.
    Minimize(String),
    Other,
}

} // verus!
