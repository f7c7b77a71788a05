//! Type reasoning over the objects of a problem and the variables of a plan.
use vstd::prelude::*;

use crate::step::{StepTypes, StepTypesView, StepVarTypes};
use crate::terms::{Object, Term, TermTable, Variable};
use crate::types::{is_subtype, Type, TypeView, Types, OBJECT};

verus! {

/// What type reasoning knows: the type table, the types of the objects by number,
/// and the variable types in effect at each step.
#[verifier::ext_equal]
pub struct Typing {
    pub table: Seq<TypeView>,
    pub objects: Seq<Type>,
    pub vars: StepTypesView,
}

impl Typing {
    /// The type of an object; `object` for an unknown one.
    pub open spec fn object_ty(self, o: Object) -> Type {
        if o.0 < self.objects.len() {
            self.objects[o.0 as int]
        } else {
            Type(OBJECT)
        }
    }

    /// The type of a variable at a step.
    pub open spec fn var_ty(self, v: Variable, id: usize) -> Type {
        self.vars.type_of(v, id)
    }

    /// The type of a term at a step.
    pub open spec fn term_ty(self, t: Term, id: usize) -> Type {
        match t {
            Term::Object(o) => self.object_ty(o),
            Term::Variable(v) => self.var_ty(v, id),
        }
    }

    /// Whether `a` is a subtype of `b`; an unknown type only of itself.
    pub open spec fn below(self, a: Type, b: Type) -> bool {
        if a.0 < self.table.len() && b.0 < self.table.len() {
            is_subtype(self.table, a, b)
        } else {
            a == b
        }
    }

    /// The more specific of two types, or `None` if they are incompatible.
    pub open spec fn meet(self, a: Type, b: Type) -> Option<Type> {
        if self.below(a, b) {
            Some(a)
        } else if self.below(b, a) {
            Some(b)
        } else {
            None
        }
    }

    /// The objects among the first `n` that are of type `ty`, in order.
    pub open spec fn of_type(self, ty: Type, n: nat) -> Seq<Object>
        decreases n,
    {
        if n == 0 {
            seq![]
        } else {
            let rest = self.of_type(ty, (n - 1) as nat);
            if self.below(self.objects[n - 1], ty) {
                rest.push(Object((n - 1) as u32))
            } else {
                rest
            }
        }
    }

    /// The objects of type `ty`, in order.
    pub open spec fn range(self, ty: Type) -> Seq<Object> {
        self.of_type(ty, self.objects.len())
    }
}

/// The range of a type holds exactly the known objects of that type, each once.
pub proof fn lemma_of_type(t: Typing, ty: Type, n: nat)
    requires
        n <= t.objects.len() <= u32::MAX,
    ensures
        forall|o: Object| #[trigger] t.of_type(ty, n).contains(o) <==> o.0 < n && t.below(t.object_ty(o), ty),
        forall|i: int, j: int| 0 <= i < j < t.of_type(ty, n).len() ==> (#[trigger] t.of_type(ty, n)[i]).0 < (#[trigger] t.of_type(ty, n)[j]).0,
        forall|i: int| 0 <= i < t.of_type(ty, n).len() ==> (#[trigger] t.of_type(ty, n)[i]).0 < n,
        t.of_type(ty, n).len() <= n,
    decreases n,
{
    if n > 0 {
        let m = (n - 1) as nat;
        lemma_of_type(t, ty, m);
        let rest = t.of_type(ty, m);
        let all = t.of_type(ty, n);
        let last = Object(m as u32);
        if t.below(t.objects[m as int], ty) {
            assert(all == rest.push(last));
            assert forall|o: Object| #[trigger] all.contains(o) <==> o.0 < n && t.below(t.object_ty(o), ty) by {
                if o == last {
                    assert(all[rest.len() as int] == o);
                }
                if rest.contains(o) {
                    let k = choose|k: int| 0 <= k < rest.len() && rest[k] == o;
                    assert(all[k] == o);
                }
                if all.contains(o) && o != last {
                    let k = choose|k: int| 0 <= k < all.len() && all[k] == o;
                    assert(rest[k] == o);
                    assert(rest.contains(o));
                }
                if o.0 < n && o.0 >= m {
                    assert(o == last);
                }
            }
        } else {
            assert forall|o: Object| #[trigger] all.contains(o) <==> o.0 < n && t.below(t.object_ty(o), ty) by {
                if o.0 < n && o.0 >= m {
                    assert(o == last);
                }
            }
        }
    }
}

/// Helper bundling the type tables and the problem objects needed for type
/// reasoning and grounding.
pub struct TypeContext<'a> {
    pub types: &'a Types,
    /// Problem objects table (extends the domain constants).
    pub objects: &'a TermTable,
    /// Domain constants table (parent of `objects`).
    pub constants: &'a TermTable,
    /// Per-step variable-type resolver.
    pub step_vars: &'a StepTypes,
}

/// The types of all objects, by number.
pub open spec fn all_object_types(constants: &TermTable, objects: &TermTable) -> Seq<Type> {
    Seq::new(constants.objects().len(), |i: int| constants.objects()[i].ty) + Seq::new(
        objects.objects().len(),
        |i: int| objects.objects()[i].ty,
    )
}

/// Whether `objects` extends `constants`, which extends nothing.
pub open spec fn extends_constants(constants: &TermTable, objects: &TermTable) -> bool {
    &&& constants.wf()
    &&& objects.wf()
    &&& constants.first() == 0
    &&& objects.first() == constants.end()
}

impl<'a> TypeContext<'a> {
    pub open spec fn view(&self) -> Typing {
        Typing {
            table: self.types@,
            objects: all_object_types(self.constants, self.objects),
            vars: self.step_vars@,
        }
    }

    pub open spec fn wf(&self) -> bool {
        &&& self.types.wf()
        &&& extends_constants(self.constants, self.objects)
    }

    /// Number of known objects.
    pub fn num_objects(&self) -> (res: usize)
        requires
            self.wf(),
        ensures
            res == self@.objects.len(),
            self@.objects.len() <= u32::MAX,
    {
        let a = self.constants.len();
        let b = self.objects.len();
        proof {
            self.objects.lemma_wf();
        }
        a + b
    }

    pub fn object_type(&self, o: Object) -> (res: Type)
        requires
            self.wf(),
        ensures
            res == self@.object_ty(o),
    {
        let n = self.num_objects();
        if (o.0 as usize) < n {
            self.objects.object_type(Some(self.constants), o)
        } else {
            Type(OBJECT)
        }
    }

    pub fn variable_type(&self, v: Variable, step_id: usize) -> (res: Type)
        ensures
            res == self@.var_ty(v, step_id),
    {
        self.step_vars.var_type(v, step_id)
    }

    pub fn term_type(&self, term: Term, step_id: usize) -> (res: Type)
        requires
            self.wf(),
        ensures
            res == self@.term_ty(term, step_id),
    {
        match term {
            Term::Object(o) => self.object_type(o),
            Term::Variable(v) => self.variable_type(v, step_id),
        }
    }

    /// Whether `a` is a subtype of `b`.
    pub fn subtype(&self, a: Type, b: Type) -> (res: bool)
        requires
            self.wf(),
        ensures
            res == self@.below(a, b),
    {
        let n = self.types.len();
        if (a.0 as usize) < n && (b.0 as usize) < n {
            self.types.subtype(a, b)
        } else {
            a == b
        }
    }

    /// Most specific common subtype, or `None` if incompatible.
    pub fn most_specific(&self, t1: Type, t2: Type) -> (res: Option<Type>)
        requires
            self.wf(),
        ensures
            res == self@.meet(t1, t2),
    {
        if self.subtype(t1, t2) {
            Some(t1)
        } else if self.subtype(t2, t1) {
            Some(t2)
        } else {
            None
        }
    }

    /// Objects compatible with `ty` (type-subtype), constants first.
    pub fn compatible_objects(&self, ty: Type) -> (res: Vec<Object>)
        requires
            self.wf(),
        ensures
            res@ == self@.range(ty),
    {
        let n = self.num_objects();
        let mut res: Vec<Object> = Vec::new();
        let mut i: usize = 0;
        while i < n
            invariant
                self.wf(),
                n == self@.objects.len(),
                n <= u32::MAX,
                i <= n,
                res@ == self@.of_type(ty, i as nat),
            decreases n - i,
        {
            let o = Object(i as u32);
            let t = self.object_type(o);
            if self.subtype(t, ty) {
                res.push(o);
            }
            i = i + 1;
        }
        res
    }
}

} // verus!
