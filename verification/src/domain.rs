//! Lowered PDDL domains.
use vstd::prelude::*;

use crate::action::ActionSchema;
use crate::functions::FunctionTable;
use crate::names::{lemma_found, lemma_missing, position_of};
use crate::predicates::PredicateTable;
use crate::requirements::Requirements;
use crate::terms::TermTable;
use crate::text::same_text;
use crate::types::Types;

verus! {

/// A lowered domain: name tables plus action schemas.
#[derive(Debug)]
pub struct Domain {
    pub name: String,
    pub requirements: Requirements,
    pub types: Types,
    pub predicates: PredicateTable,
    pub functions: FunctionTable,
    /// Domain constants. A problem's object table extends this one.
    pub constants: TermTable,
    pub actions: Vec<ActionSchema>,
}

/// The names of a list of schemas.
pub open spec fn schema_names(actions: Seq<ActionSchema>) -> Seq<Seq<char>> {
    Seq::new(actions.len(), |i: int| actions[i].name@)
}

impl Domain {
    /// The tables of the domain are in order.
    pub open spec fn wf(&self) -> bool {
        &&& self.types.wf()
        &&& self.predicates.wf()
        &&& self.functions.wf()
        &&& self.constants.wf()
        &&& self.constants.first() == 0
    }

    /// Finds an action schema by name; the first of that name.
    pub fn find_action(&self, name: &str) -> (res: Option<&ActionSchema>)
        ensures
            match position_of(schema_names(self.actions@), name@) {
                Some(i) => res matches Some(a) && 0 <= i < self.actions@.len() && *a == self.actions@[i],
                None => res is None,
            },
    {
        let ghost names = schema_names(self.actions@);
        let mut i: usize = 0;
        while i < self.actions.len()
            invariant
                names == schema_names(self.actions@),
                i <= self.actions@.len(),
                forall|j: int| 0 <= j < i ==> #[trigger] names[j] != name@,
            decreases self.actions@.len() - i,
        {
            if same_text(self.actions[i].name.as_str(), name) {
                proof {
                    lemma_found(names, name@, i as int);
                }
                return Some(&self.actions[i]);
            }
            i = i + 1;
        }
        proof {
            lemma_missing(names, name@);
        }
        None
    }
}

} // verus!
