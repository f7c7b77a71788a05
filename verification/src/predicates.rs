//! PDDL predicates and the predicate table.
use vstd::prelude::*;

use crate::names::{copy_names, find_name, position_of, spellings};
use crate::text::copy_vec;
use crate::types::Type;

verus! {

/// A predicate. Wraps an index into a [`PredicateTable`].
#[derive(Debug, Clone, Copy, PartialEq, Eq, PartialOrd, Ord, Hash, Structural)]
pub struct Predicate(pub u32);

/// Owns predicate names, parameter types, and the static-predicate set.
#[derive(Debug)]
pub struct PredicateTable {
    names: Vec<String>,
    parameters: Vec<Vec<Type>>,
    /// The predicates that appear in some effect; every predicate is static until
    /// [`make_dynamic`](Self::make_dynamic).
    dynamic: Vec<Predicate>,
}

impl PredicateTable {
    /// The names, by number.
    pub closed spec fn names(&self) -> Seq<Seq<char>> {
        spellings(self.names@)
    }

    /// The parameter types, by number.
    pub closed spec fn signatures(&self) -> Seq<Seq<Type>> {
        Seq::new(self.parameters@.len(), |i: int| self.parameters@[i]@)
    }

    /// The predicates marked dynamic.
    pub closed spec fn dynamics(&self) -> Set<Predicate> {
        self.dynamic@.to_set()
    }

    /// The table's invariant.
    pub closed spec fn wf(&self) -> bool {
        self.names@.len() == self.parameters@.len() && self.names@.len() <= u32::MAX
    }

    /// What the invariant says of names and parameters.
    pub proof fn lemma_wf(&self)
        requires
            self.wf(),
        ensures
            self.names().len() == self.signatures().len(),
            self.names().len() <= u32::MAX,
    {
    }

    pub fn new() -> (res: Self)
        ensures
            res.wf(),
            res.names() == Seq::<Seq<char>>::empty(),
            res.signatures() == Seq::<Seq<Type>>::empty(),
            res.dynamics() == Set::<Predicate>::empty(),
    {
        let res = PredicateTable { names: Vec::new(), parameters: Vec::new(), dynamic: Vec::new() };
        proof {
            assert(res.names() =~= Seq::empty());
            assert(res.signatures() =~= Seq::empty());
            assert(res.dynamics() =~= Set::empty());
        }
        res
    }

    pub fn clone(&self) -> (res: Self)
        requires
            self.wf(),
        ensures
            res.wf(),
            res.names() == self.names(),
            res.signatures() == self.signatures(),
            res.dynamics() == self.dynamics(),
    {
        let names = copy_names(&self.names);
        let mut parameters: Vec<Vec<Type>> = Vec::new();
        let mut i: usize = 0;
        while i < self.parameters.len()
            invariant
                i <= self.parameters@.len(),
                parameters@.len() == i,
                forall|j: int| 0 <= j < i ==> (#[trigger] parameters@[j])@ == self.parameters@[j]@,
            decreases self.parameters@.len() - i,
        {
            parameters.push(copy_vec(&self.parameters[i]));
            i = i + 1;
        }
        let dynamic = copy_vec(&self.dynamic);
        let res = PredicateTable { names, parameters, dynamic };
        proof {
            assert(res.names().len() == self.names().len());
            assert(res.signatures() =~= self.signatures());
        }
        res
    }

    /// Adds a predicate with the given name (or returns the existing one).
    pub fn add_predicate(&mut self, name: &str) -> (res: Predicate)
        requires
            old(self).wf(),
            old(self).names().len() < u32::MAX,
        ensures
            final(self).wf(),
            final(self).dynamics() == old(self).dynamics(),
            match position_of(old(self).names(), name@) {
                Some(i) => res.0 == i && final(self).names() == old(self).names() && final(self).signatures() == old(self).signatures(),
                None => res.0 == old(self).names().len() && final(self).names() == old(self).names().push(name@)
                    && final(self).signatures() == old(self).signatures().push(Seq::empty()),
            },
            res.0 < final(self).names().len(),
    {
        match find_name(&self.names, name) {
            Some(i) => Predicate(i as u32),
            None => {
                let p = Predicate(self.names.len() as u32);
                self.names.push(name.to_string());
                self.parameters.push(Vec::new());
                proof {
                    assert(self.names() =~= old(self).names().push(name@));
                    assert(self.signatures() =~= old(self).signatures().push(Seq::empty()));
                }
                p
            },
        }
    }

    /// Appends a parameter of the given type.
    pub fn add_parameter(&mut self, p: Predicate, ty: Type)
        requires
            old(self).wf(),
            p.0 < old(self).names().len(),
        ensures
            final(self).wf(),
            final(self).names() == old(self).names(),
            final(self).dynamics() == old(self).dynamics(),
            final(self).signatures() == old(self).signatures().update(p.0 as int, old(self).signatures()[p.0 as int].push(ty)),
    {
        let i = p.0 as usize;
        self.parameters[i].push(ty);
        assert(self.signatures() =~= old(self).signatures().update(i as int, old(self).signatures()[i as int].push(ty)));
    }

    /// Marks a predicate as dynamic (appearing in some effect).
    pub fn make_dynamic(&mut self, p: Predicate)
        requires
            old(self).wf(),
        ensures
            final(self).wf(),
            final(self).names() == old(self).names(),
            final(self).signatures() == old(self).signatures(),
            final(self).dynamics() == old(self).dynamics().insert(p),
    {
        let ghost before = self.dynamic@;
        self.dynamic.push(p);
        proof {
            assert(self.dynamic@ =~= before.push(p));
            assert forall|q: Predicate| self.dynamics().contains(q) <==> old(self).dynamics().insert(p).contains(q) by {
                if before.contains(q) {
                    let k = choose|k: int| 0 <= k < before.len() && before[k] == q;
                    assert(self.dynamic@[k] == q);
                }
                if q == p {
                    assert(self.dynamic@[before.len() as int] == q);
                }
            }
            assert(self.dynamics() =~= old(self).dynamics().insert(p));
        }
    }

    pub fn is_static(&self, p: Predicate) -> (res: bool)
        ensures
            res == !self.dynamics().contains(p),
    {
        let mut i: usize = 0;
        while i < self.dynamic.len()
            invariant
                i <= self.dynamic@.len(),
                forall|j: int| 0 <= j < i ==> self.dynamic@[j] != p,
            decreases self.dynamic@.len() - i,
        {
            if self.dynamic[i] == p {
                return false;
            }
            i = i + 1;
        }
        true
    }

    pub fn name(&self, p: Predicate) -> (res: &str)
        requires
            self.wf(),
            p.0 < self.names().len(),
        ensures
            res@ == self.names()[p.0 as int],
    {
        self.names[p.0 as usize].as_str()
    }

    pub fn parameters(&self, p: Predicate) -> (res: &Vec<Type>)
        requires
            self.wf(),
            p.0 < self.names().len(),
        ensures
            res@ == self.signatures()[p.0 as int],
    {
        &self.parameters[p.0 as usize]
    }

    pub fn find_predicate(&self, name: &str) -> (res: Option<Predicate>)
        requires
            self.wf(),
        ensures
            match position_of(self.names(), name@) {
                Some(i) => res matches Some(p) && p.0 == i && i < self.names().len(),
                None => res is None,
            },
    {
        match find_name(&self.names, name) {
            Some(i) => Some(Predicate(i as u32)),
            None => None,
        }
    }

    /// Number of declared predicates (ids are dense from 0).
    pub fn len(&self) -> (res: usize)
        ensures
            res == self.names().len(),
    {
        self.names.len()
    }

    pub fn is_empty(&self) -> (res: bool)
        ensures
            res == (self.names().len() == 0),
    {
        self.names.len() == 0
    }
}

} // verus!
