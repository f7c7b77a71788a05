//! Terms: objects and variables, and the tables that own them.
use vstd::prelude::*;

use crate::names::{find_name, position_of, spellings};
use crate::text::copy_vec;
use crate::types::Type;

verus! {

/// An object or constant. Wraps an index into a [`TermTable`] chain: a problem's
/// objects are numbered after the constants they extend.
#[derive(Debug, Clone, Copy, PartialEq, Eq, PartialOrd, Ord, Hash, Structural)]
pub struct Object(pub u32);

/// A variable of one scope (an action schema or the goal).
#[derive(Debug, Clone, Copy, PartialEq, Eq, PartialOrd, Ord, Hash, Structural)]
pub struct Variable(pub u32);

/// A term: a variable or an object.
#[derive(Debug, Clone, Copy, PartialEq, Eq, PartialOrd, Ord, Hash, Structural)]
pub enum Term {
    Variable(Variable),
    Object(Object),
}

impl Term {
    /// Whether the term is an object.
    pub fn object(&self) -> (res: bool)
        ensures
            res == (*self is Object),
    {
        match self {
            Term::Object(_) => true,
            Term::Variable(_) => false,
        }
    }

    /// Whether the term is a variable.
    pub fn variable(&self) -> (res: bool)
        ensures
            res == (*self is Variable),
    {
        match self {
            Term::Variable(_) => true,
            Term::Object(_) => false,
        }
    }

    pub fn as_object(&self) -> (res: Object)
        requires
            *self is Object,
        ensures
            *self == Term::Object(res),
    {
        match self {
            Term::Object(o) => *o,
            Term::Variable(v) => Object(v.0),
        }
    }

    pub fn as_variable(&self) -> (res: Variable)
        requires
            *self is Variable,
        ensures
            *self == Term::Variable(res),
    {
        match self {
            Term::Variable(v) => *v,
            Term::Object(o) => Variable(o.0),
        }
    }
}

/// A named object with its type.
#[verifier::ext_equal]
pub struct ObjectView {
    pub name: Seq<char>,
    pub ty: Type,
}

/// Owns object names and types and variable types. A problem's table extends the
/// domain's constants: its own objects are numbered from the end of theirs.
#[derive(Debug)]
pub struct TermTable {
    first: u32,
    names: Vec<String>,
    object_types: Vec<Type>,
    variable_types: Vec<Type>,
}

impl TermTable {
    /// The number of the first object of this table.
    pub closed spec fn first(&self) -> nat {
        self.first as nat
    }

    /// The objects of this table, in order.
    pub closed spec fn objects(&self) -> Seq<ObjectView> {
        Seq::new(self.names@.len(), |i: int| ObjectView { name: self.names@[i]@, ty: self.object_types@[i] })
    }

    /// The names of the objects of this table.
    pub open spec fn object_names(&self) -> Seq<Seq<char>> {
        Seq::new(self.objects().len(), |i: int| self.objects()[i].name)
    }

    /// The types of the variables, by number.
    pub closed spec fn variables(&self) -> Seq<Type> {
        self.variable_types@
    }

    /// The table's invariant.
    pub closed spec fn wf(&self) -> bool {
        &&& self.names@.len() == self.object_types@.len()
        &&& self.first + self.names@.len() <= u32::MAX
    }

    /// What the invariant says of the numbers of the objects.
    pub proof fn lemma_wf(&self)
        requires
            self.wf(),
        ensures
            self.end() <= u32::MAX,
    {
    }

    /// One past the number of the last object of this table.
    pub open spec fn end(&self) -> nat {
        self.first() + self.objects().len()
    }

    /// Whether `o` is one of the table's own objects.
    pub open spec fn owns(&self, o: Object) -> bool {
        self.first() <= o.0 < self.end()
    }

    /// Whether `o` is an object of the table or of the one it extends.
    pub open spec fn knows(&self, parent: Option<&TermTable>, o: Object) -> bool {
        self.owns(o) || (parent is Some && parent->0.owns(o))
    }

    /// The name and type of an object of the table or of the one it extends.
    pub open spec fn entry(&self, parent: Option<&TermTable>, o: Object) -> ObjectView {
        if self.owns(o) {
            self.objects()[o.0 - self.first()]
        } else {
            parent->0.objects()[o.0 - parent->0.first()]
        }
    }

    pub fn new() -> (res: Self)
        ensures
            res.wf(),
            res.first() == 0,
            res.objects() == Seq::<ObjectView>::empty(),
            res.variables() == Seq::<Type>::empty(),
    {
        let res = TermTable { first: 0, names: Vec::new(), object_types: Vec::new(), variable_types: Vec::new() };
        assert(res.objects() =~= Seq::empty());
        res
    }

    /// An empty table whose objects come after those of `parent`.
    pub fn with_parent(parent: &TermTable) -> (res: Self)
        requires
            parent.wf(),
        ensures
            res.wf(),
            res.first() == parent.end(),
            res.objects() == Seq::<ObjectView>::empty(),
            res.variables() == Seq::<Type>::empty(),
    {
        let first = parent.first + parent.names.len() as u32;
        let res = TermTable { first, names: Vec::new(), object_types: Vec::new(), variable_types: Vec::new() };
        assert(res.objects() =~= Seq::empty());
        res
    }

    /// Number of the table's own objects.
    pub fn len(&self) -> (res: usize)
        ensures
            res == self.objects().len(),
    {
        self.names.len()
    }

    pub fn is_empty(&self) -> (res: bool)
        ensures
            res == (self.objects().len() == 0),
    {
        self.names.len() == 0
    }

    /// Adds an object.
    pub fn add_object(&mut self, name: &str, ty: Type) -> (res: Object)
        requires
            old(self).wf(),
            old(self).end() < u32::MAX,
        ensures
            final(self).wf(),
            res.0 == old(self).end(),
            final(self).first() == old(self).first(),
            final(self).objects() == old(self).objects().push(ObjectView { name: name@, ty }),
            final(self).variables() == old(self).variables(),
    {
        let number = self.first + self.names.len() as u32;
        self.names.push(name.to_string());
        self.object_types.push(ty);
        assert(self.objects() =~= old(self).objects().push(ObjectView { name: name@, ty }));
        Object(number)
    }

    /// Adds a variable of the given type.
    pub fn add_variable(&mut self, ty: Type) -> (res: Variable)
        requires
            old(self).wf(),
            old(self).variables().len() < u32::MAX,
        ensures
            final(self).wf(),
            res.0 == old(self).variables().len(),
            final(self).first() == old(self).first(),
            final(self).objects() == old(self).objects(),
            final(self).variables() == old(self).variables().push(ty),
    {
        let number = self.variable_types.len() as u32;
        self.variable_types.push(ty);
        assert(self.objects() =~= old(self).objects());
        Variable(number)
    }

    /// Finds an object by name, in this table first, then in the one it extends.
    pub fn find_object(&self, parent: Option<&TermTable>, name: &str) -> (res: Option<Object>)
        requires
            self.wf(),
            parent is Some ==> parent->0.wf(),
        ensures
            match position_of(self.object_names(), name@) {
                Some(i) => res matches Some(o) && o.0 == self.first() + i,
                None => match parent {
                    Some(p) => match position_of(p.object_names(), name@) {
                        Some(i) => res matches Some(o) && o.0 == p.first() + i,
                        None => res is None,
                    },
                    None => res is None,
                },
            },
            res is Some ==> self.knows(parent, res->0),
    {
        proof {
            assert(spellings(self.names@) =~= self.object_names());
        }
        match find_name(&self.names, name) {
            Some(i) => Some(Object(self.first + i as u32)),
            None => match parent {
                Some(p) => {
                    proof {
                        assert(spellings(p.names@) =~= p.object_names());
                    }
                    match find_name(&p.names, name) {
                        Some(i) => Some(Object(p.first + i as u32)),
                        None => None,
                    }
                },
                None => None,
            },
        }
    }

    /// The type of an object of this table or of the one it extends.
    pub fn object_type(&self, parent: Option<&TermTable>, o: Object) -> (res: Type)
        requires
            self.wf(),
            parent is Some ==> parent->0.wf(),
            self.knows(parent, o),
        ensures
            res == self.entry(parent, o).ty,
    {
        if o.0 >= self.first && ((o.0 - self.first) as usize) < self.object_types.len() {
            self.object_types[(o.0 - self.first) as usize]
        } else {
            match parent {
                Some(p) => {
                    p.object_types[(o.0 - p.first) as usize]
                },
                None => self.object_types[0],
            }
        }
    }

    /// The name of an object of this table or of the one it extends.
    pub fn object_name<'a>(&'a self, parent: Option<&'a TermTable>, o: Object) -> (res: &'a str)
        requires
            self.wf(),
            parent is Some ==> parent->0.wf(),
            self.knows(parent, o),
        ensures
            res@ == self.entry(parent, o).name,
    {
        if o.0 >= self.first && ((o.0 - self.first) as usize) < self.names.len() {
            self.names[(o.0 - self.first) as usize].as_str()
        } else {
            match parent {
                Some(p) => {
                    p.names[(o.0 - p.first) as usize].as_str()
                },
                None => self.names[0].as_str(),
            }
        }
    }

    /// The table's own objects with their types, in order.
    pub fn owned_objects(&self) -> (res: Vec<(Object, Type)>)
        requires
            self.wf(),
        ensures
            res@.len() == self.objects().len(),
            forall|i: int| 0 <= i < res@.len() ==> (#[trigger] res@[i]).0.0 == self.first() + i && res@[i].1 == self.objects()[i].ty,
    {
        let mut res: Vec<(Object, Type)> = Vec::new();
        let mut i: usize = 0;
        while i < self.names.len()
            invariant
                i <= self.names@.len(),
                self.names@.len() == self.object_types@.len(),
                self.first + self.names@.len() <= u32::MAX,
                res@.len() == i,
                forall|j: int| 0 <= j < i ==> (#[trigger] res@[j]).0.0 == self.first() + j && res@[j].1 == self.objects()[j].ty,
            decreases self.names@.len() - i,
        {
            res.push((Object(self.first + i as u32), self.object_types[i]));
            i = i + 1;
        }
        res
    }

    /// Number of variables.
    pub fn num_variables(&self) -> (res: usize)
        ensures
            res == self.variables().len(),
    {
        self.variable_types.len()
    }

    /// The types of the variables, by number.
    pub fn variable_types(&self) -> (res: Vec<Type>)
        ensures
            res@ == self.variables(),
    {
        copy_vec(&self.variable_types)
    }
}

} // verus!
