//! What lowering a PDDL domain or problem may object to.
use vstd::prelude::*;

verus! {

/// Errors produced during lowering.
#[derive(Debug)]
pub enum LowerError {
    UnsupportedRequirement(String),
    UnknownType(String),
    UnknownObject(String),
    UnboundVariable(String),
    UnsupportedFluent(String),
    FunctionTerm,
    Preference,
    DerivedPredicate,
    DurativeAction,
    BadEqualityTerm,
    /// The task holds more names than can be numbered.
    TooManyNames,
}

/// The mathematical form of an error.
pub enum Fault {
    UnsupportedRequirement(Seq<char>),
    UnknownType(Seq<char>),
    UnknownObject(Seq<char>),
    UnboundVariable(Seq<char>),
    UnsupportedFluent(Seq<char>),
    FunctionTerm,
    Preference,
    DerivedPredicate,
    DurativeAction,
    BadEqualityTerm,
    TooManyNames,
}

impl View for LowerError {
    type V = Fault;

    open spec fn view(&self) -> Fault {
        match self {
            LowerError::UnsupportedRequirement(s) => Fault::UnsupportedRequirement(s@),
            LowerError::UnknownType(s) => Fault::UnknownType(s@),
            LowerError::UnknownObject(s) => Fault::UnknownObject(s@),
            LowerError::UnboundVariable(s) => Fault::UnboundVariable(s@),
            LowerError::UnsupportedFluent(s) => Fault::UnsupportedFluent(s@),
            LowerError::FunctionTerm => Fault::FunctionTerm,
            LowerError::Preference => Fault::Preference,
            LowerError::DerivedPredicate => Fault::DerivedPredicate,
            LowerError::DurativeAction => Fault::DurativeAction,
            LowerError::BadEqualityTerm => Fault::BadEqualityTerm,
            LowerError::TooManyNames => Fault::TooManyNames,
        }
    }
}

impl LowerError {
    /// The error as a message.
    pub open spec fn message(&self) -> Seq<char> {
        match self {
            LowerError::UnsupportedRequirement(s) => "unsupported requirement: :"@ + s@,
            LowerError::UnknownType(s) => "unknown type: "@ + s@,
            LowerError::UnknownObject(s) => "unknown object or constant: "@ + s@,
            LowerError::UnboundVariable(s) => "unbound variable: ?"@ + s@,
            LowerError::UnsupportedFluent(s) => "numeric/object fluent content is not supported in the classical subset: "@ + s@,
            LowerError::FunctionTerm => "function terms are not supported in the classical subset"@,
            LowerError::Preference => "preferences are not supported in the classical subset"@,
            LowerError::DerivedPredicate => "derived predicates are not supported in the classical subset"@,
            LowerError::DurativeAction => "durative actions are not supported in the classical subset"@,
            LowerError::BadEqualityTerm => "equality term must be a variable or object"@,
            LowerError::TooManyNames => "more names than can be numbered"@,
        }
    }

    /// The error as a text.
    pub fn to_text(&self) -> (res: String)
        ensures
            res@ == self.message(),
    {
        match self {
            LowerError::UnsupportedRequirement(s) => joined("unsupported requirement: :", s),
            LowerError::UnknownType(s) => joined("unknown type: ", s),
            LowerError::UnknownObject(s) => joined("unknown object or constant: ", s),
            LowerError::UnboundVariable(s) => joined("unbound variable: ?", s),
            LowerError::UnsupportedFluent(s) => joined(
                "numeric/object fluent content is not supported in the classical subset: ",
                s,
            ),
            LowerError::FunctionTerm => "function terms are not supported in the classical subset".to_string(),
            LowerError::Preference => "preferences are not supported in the classical subset".to_string(),
            LowerError::DerivedPredicate => "derived predicates are not supported in the classical subset".to_string(),
            LowerError::DurativeAction => "durative actions are not supported in the classical subset".to_string(),
            LowerError::BadEqualityTerm => "equality term must be a variable or object".to_string(),
            LowerError::TooManyNames => "more names than can be numbered".to_string(),
        }
    }
}

fn joined(head: &str, tail: &String) -> (res: String)
    ensures
        res@ == head@ + tail@,
{
    let mut res = head.to_string();
    res.append(tail.as_str());
    res
}

} // verus!
