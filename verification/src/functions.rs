//! PDDL functions and the function table.
//!
//! Functions are declared so numeric content can be surfaced and rejected, but
//! classical planning never evaluates them.
use vstd::prelude::*;

use crate::names::{find_name, position_of, spellings};
use crate::types::Type;

verus! {

/// A function. Wraps an index into a [`FunctionTable`].
#[derive(Debug, Clone, Copy, PartialEq, Eq, PartialOrd, Ord, Hash, Structural)]
pub struct Function(pub u32);

/// Owns function names, parameter types, and the static-function set.
#[derive(Debug)]
pub struct FunctionTable {
    names: Vec<String>,
    parameters: Vec<Vec<Type>>,
    /// The functions that appear in some effect; every function is static until
    /// [`make_dynamic`](Self::make_dynamic).
    dynamic: Vec<Function>,
}

impl FunctionTable {
    /// The names, by number.
    pub closed spec fn names(&self) -> Seq<Seq<char>> {
        spellings(self.names@)
    }

    /// The parameter types, by number.
    pub closed spec fn signatures(&self) -> Seq<Seq<Type>> {
        Seq::new(self.parameters@.len(), |i: int| self.parameters@[i]@)
    }

    /// The functions marked dynamic.
    pub closed spec fn dynamics(&self) -> Set<Function> {
        self.dynamic@.to_set()
    }

    /// The table's invariant.
    pub closed spec fn wf(&self) -> bool {
        self.names@.len() == self.parameters@.len() && self.names@.len() <= u32::MAX
    }

    /// What the invariant says of names and parameters.
    pub proof fn lemma_wf(&self)
        requires
            self.wf(),
        ensures
            self.names().len() == self.signatures().len(),
    {
    }

    pub fn new() -> (res: Self)
        ensures
            res.wf(),
            res.names() == Seq::<Seq<char>>::empty(),
            res.signatures() == Seq::<Seq<Type>>::empty(),
            res.dynamics() == Set::<Function>::empty(),
    {
        let res = FunctionTable { names: Vec::new(), parameters: Vec::new(), dynamic: Vec::new() };
        proof {
            assert(res.names() =~= Seq::empty());
            assert(res.signatures() =~= Seq::empty());
            assert(res.dynamics() =~= Set::empty());
        }
        res
    }

    /// Adds a function with the given name (or returns the existing one).
    pub fn add_function(&mut self, name: &str) -> (res: Function)
        requires
            old(self).wf(),
            old(self).names().len() < u32::MAX,
        ensures
            final(self).wf(),
            final(self).dynamics() == old(self).dynamics(),
            match position_of(old(self).names(), name@) {
                Some(i) => res.0 == i && final(self).names() == old(self).names() && final(self).signatures() == old(self).signatures(),
                None => res.0 == old(self).names().len() && final(self).names() == old(self).names().push(name@)
                    && final(self).signatures() == old(self).signatures().push(Seq::empty()),
            },
            res.0 < final(self).names().len(),
    {
        match find_name(&self.names, name) {
            Some(i) => Function(i as u32),
            None => {
                let p = Function(self.names.len() as u32);
                self.names.push(name.to_string());
                self.parameters.push(Vec::new());
                proof {
                    assert(self.names() =~= old(self).names().push(name@));
                    assert(self.signatures() =~= old(self).signatures().push(Seq::empty()));
                }
                p
            },
        }
    }

    /// Appends a parameter of the given type.
    pub fn add_parameter(&mut self, p: Function, ty: Type)
        requires
            old(self).wf(),
            p.0 < old(self).names().len(),
        ensures
            final(self).wf(),
            final(self).names() == old(self).names(),
            final(self).dynamics() == old(self).dynamics(),
            final(self).signatures() == old(self).signatures().update(p.0 as int, old(self).signatures()[p.0 as int].push(ty)),
    {
        let i = p.0 as usize;
        self.parameters[i].push(ty);
        assert(self.signatures() =~= old(self).signatures().update(i as int, old(self).signatures()[i as int].push(ty)));
    }

    /// Marks a function as dynamic (appearing in some effect).
    pub fn make_dynamic(&mut self, p: Function)
        requires
            old(self).wf(),
        ensures
            final(self).wf(),
            final(self).names() == old(self).names(),
            final(self).signatures() == old(self).signatures(),
            final(self).dynamics() == old(self).dynamics().insert(p),
    {
        let ghost before = self.dynamic@;
        self.dynamic.push(p);
        proof {
            assert(self.dynamic@ =~= before.push(p));
            assert forall|q: Function| self.dynamics().contains(q) <==> old(self).dynamics().insert(p).contains(q) by {
                if before.contains(q) {
                    let k = choose|k: int| 0 <= k < before.len() && before[k] == q;
                    assert(self.dynamic@[k] == q);
                }
                if q == p {
                    assert(self.dynamic@[before.len() as int] == q);
                }
            }
            assert(self.dynamics() =~= old(self).dynamics().insert(p));
        }
    }

    pub fn is_static(&self, p: Function) -> (res: bool)
        ensures
            res == !self.dynamics().contains(p),
    {
        let mut i: usize = 0;
        while i < self.dynamic.len()
            invariant
                i <= self.dynamic@.len(),
                forall|j: int| 0 <= j < i ==> self.dynamic@[j] != p,
            decreases self.dynamic@.len() - i,
        {
            if self.dynamic[i] == p {
                return false;
            }
            i = i + 1;
        }
        true
    }

    pub fn name(&self, p: Function) -> (res: &str)
        requires
            self.wf(),
            p.0 < self.names().len(),
        ensures
            res@ == self.names()[p.0 as int],
    {
        self.names[p.0 as usize].as_str()
    }

    pub fn parameters(&self, p: Function) -> (res: &Vec<Type>)
        requires
            self.wf(),
            p.0 < self.names().len(),
        ensures
            res@ == self.signatures()[p.0 as int],
    {
        &self.parameters[p.0 as usize]
    }

    pub fn find_function(&self, name: &str) -> (res: Option<Function>)
        requires
            self.wf(),
        ensures
            match position_of(self.names(), name@) {
                Some(i) => res matches Some(p) && p.0 == i && i < self.names().len(),
                None => res is None,
            },
    {
        match find_name(&self.names, name) {
            Some(i) => Some(Function(i as u32)),
            None => None,
        }
    }

    /// Number of functions.
    pub(crate) fn len(&self) -> (res: usize)
        ensures
            res == self.names().len(),
    {
        self.names.len()
    }
}

} // verus!
