//! Numeric content, carried but never evaluated: lowering rejects fluents.
use vstd::prelude::*;

use crate::functions::Function;
use crate::terms::Term;

verus! {

/// A fluent application: a function applied to a list of terms.
#[derive(Debug)]
pub struct Fluent {
    pub function: Function,
    pub terms: Vec<Term>,
}

} // verus!
